//! Rules of the build menus: which buildings may be placed, which units a
//! building trains at its level, which level upgrade it offers, and what
//! the tech tree shows of each building kind.
//!
//! Kinds are numbered by the caller; ages are ranks, older ages lower.
use vstd::prelude::*;

verus! {

/// What the build grid knows of one building kind.
#[derive(Clone, Copy, PartialEq, Eq, Debug)]
pub struct BuildingOption {
    pub kind: u32,
    /// Rank of the age the building needs.
    pub required_age: u8,
    /// Building that must stand before this one may be placed.
    pub prerequisite: Option<u32>,
}

/// A building kind may be placed: the base only before one was founded,
/// every kind only once its age is reached, and only once its prerequisite
/// stands (a founded base counts as a standing base).
pub open spec fn building_unlocked(
    option: BuildingOption,
    base_kind: u32,
    founded: bool,
    current_age: u8,
    completed: Seq<u32>,
) -> bool {
    &&& !(founded && option.kind == base_kind)
    &&& current_age >= option.required_age
    &&& match option.prerequisite {
        None => true,
        Some(p) => if p == base_kind {
            founded || completed.contains(p)
        } else {
            completed.contains(p)
        },
    }
}

/// Kinds of the first `n` options that are unlocked, in order.
pub open spec fn unlocked_kinds(
    options: Seq<BuildingOption>,
    base_kind: u32,
    founded: bool,
    current_age: u8,
    completed: Seq<u32>,
    n: int,
) -> Seq<u32>
    decreases n,
{
    if n <= 0 {
        Seq::empty()
    } else {
        let prev = unlocked_kinds(options, base_kind, founded, current_age, completed, n - 1);
        if building_unlocked(options[n - 1], base_kind, founded, current_age, completed) {
            prev.push(options[n - 1].kind)
        } else {
            prev
        }
    }
}

fn contains_kind(v: &Vec<u32>, k: u32) -> (r: bool)
    ensures
        r == v@.contains(k),
{
    let mut i: usize = 0;
    while i < v.len()
        invariant
            i <= v@.len(),
            forall|j: int| 0 <= j < i ==> v@[j] != k,
        decreases v@.len() - i,
    {
        if v[i] == k {
            assert(v@[i as int] == k);
            return true;
        }
        i += 1;
    }
    false
}

/// Whether one building kind may be placed now.
pub fn is_building_unlocked(
    option: BuildingOption,
    base_kind: u32,
    founded: bool,
    current_age: u8,
    completed: &Vec<u32>,
) -> (r: bool)
    ensures
        r == building_unlocked(option, base_kind, founded, current_age, completed@),
{
    if founded && option.kind == base_kind {
        return false;
    }
    if current_age < option.required_age {
        return false;
    }
    match option.prerequisite {
        None => true,
        Some(p) => {
            if p == base_kind {
                founded || contains_kind(completed, p)
            } else {
                contains_kind(completed, p)
            }
        },
    }
}

/// The building kinds the build grid offers, in the order given.
pub fn available_buildings(
    options: &Vec<BuildingOption>,
    base_kind: u32,
    founded: bool,
    current_age: u8,
    completed: &Vec<u32>,
) -> (r: Vec<u32>)
    ensures
        r@ == unlocked_kinds(options@, base_kind, founded, current_age, completed@, options@.len() as int),
{
    let mut out: Vec<u32> = Vec::new();
    let mut i: usize = 0;
    while i < options.len()
        invariant
            i <= options@.len(),
            out@ == unlocked_kinds(options@, base_kind, founded, current_age, completed@, i as int),
        decreases options@.len() - i,
    {
        let o = options[i];
        if is_building_unlocked(o, base_kind, founded, current_age, completed) {
            out.push(o.kind);
        }
        i += 1;
    }
    out
}

/// `g` followed by the kinds of `extra` it does not hold yet, each once.
pub open spec fn add_kinds(g: Seq<u32>, extra: Seq<u32>) -> Seq<u32>
    decreases extra.len(),
{
    if extra.len() == 0 {
        g
    } else {
        let prev = add_kinds(g, extra.drop_last());
        if prev.contains(extra.last()) {
            prev
        } else {
            prev.push(extra.last())
        }
    }
}

/// Level upgrade `idx` is reached at level `idx + 2`; the count wraps as a
/// byte does.
pub open spec fn upgrade_reached(level: u8, idx: int) -> bool {
    level >= ((idx + 2) as u8)
}

/// What a building trains: its own list, then what the reached level
/// upgrades among the first `n` unlock, each kind once.
pub open spec fn trainable_after(trains: Seq<u32>, unlocks: Seq<Seq<u32>>, level: u8, n: int) -> Seq<u32>
    decreases n,
{
    if n <= 0 {
        trains
    } else {
        let prev = trainable_after(trains, unlocks, level, n - 1);
        if upgrade_reached(level, n - 1) {
            add_kinds(prev, unlocks[n - 1])
        } else {
            prev
        }
    }
}

fn add_new_kinds(g: &mut Vec<u32>, extra: &Vec<u32>)
    ensures
        final(g)@ == add_kinds(old(g)@, extra@),
{
    let ghost g0 = g@;
    let mut k: usize = 0;
    while k < extra.len()
        invariant
            k <= extra@.len(),
            g@ == add_kinds(g0, extra@.take(k as int)),
        decreases extra@.len() - k,
    {
        let e = extra[k];
        proof {
            assert(extra@.take(k + 1).drop_last() =~= extra@.take(k as int));
            assert(extra@.take(k + 1).last() == e);
        }
        if !contains_kind(g, e) {
            g.push(e);
        }
        k += 1;
    }
    assert(extra@.take(extra@.len() as int) =~= extra@);
}

/// The unit kinds a building of `level` trains: `trains`, then the kinds
/// unlocked by the level upgrades it has reached (`unlocks[idx]` lists what
/// upgrade `idx` unlocks, empty when it unlocks none), without repeats.
pub fn trainable_units(trains: &Vec<u32>, unlocks: &Vec<Vec<u32>>, level: u8) -> (r: Vec<u32>)
    ensures
        r@ == trainable_after(
            trains@,
            Seq::new(unlocks@.len(), |i: int| unlocks@[i]@),
            level,
            unlocks@.len() as int,
        ),
{
    let ghost u = Seq::new(unlocks@.len(), |i: int| unlocks@[i]@);
    let mut out: Vec<u32> = Vec::new();
    let mut k: usize = 0;
    while k < trains.len()
        invariant
            k <= trains@.len(),
            out@ == trains@.take(k as int),
        decreases trains@.len() - k,
    {
        out.push(trains[k]);
        proof {
            assert(trains@.take(k + 1) =~= trains@.take(k as int).push(trains@[k as int]));
        }
        k += 1;
    }
    assert(trains@.take(trains@.len() as int) =~= trains@);
    let mut idx: usize = 0;
    while idx < unlocks.len()
        invariant
            idx <= unlocks@.len(),
            u == Seq::new(unlocks@.len(), |i: int| unlocks@[i]@),
            out@ == trainable_after(trains@, u, level, idx as int),
        decreases unlocks@.len() - idx,
    {
        let required = (idx % 256 + 2) as u8;
        assert(((idx % 256 + 2) as u8) == ((idx + 2) as u8)) by (bit_vector);
        if level >= required {
            add_new_kinds(&mut out, &unlocks[idx]);
        }
        idx += 1;
    }
    out
}

/// The level upgrade a building offers: upgrade `level - 1`, while the
/// building is below level 3 and has that upgrade.
pub fn offered_upgrade(level: u8, upgrade_count: usize) -> (r: Option<usize>)
    requires
        level >= 3 || upgrade_count == 0 || level >= 1,
    ensures
        r == (if level < 3 && upgrade_count > 0 && ((level - 1) as usize) < upgrade_count {
            Some((level - 1) as usize)
        } else {
            None
        }),
{
    if level < 3 && upgrade_count > 0 {
        let idx = (level - 1) as usize;
        if idx < upgrade_count {
            return Some(idx);
        }
    }
    None
}

/// Every kind the menu offers is unlocked, and every unlocked kind of the
/// list is offered.
pub proof fn lemma_available_exact(
    options: Seq<BuildingOption>,
    base_kind: u32,
    founded: bool,
    current_age: u8,
    completed: Seq<u32>,
    n: int,
)
    requires
        0 <= n <= options.len(),
    ensures
        forall|k: u32| #[trigger] unlocked_kinds(options, base_kind, founded, current_age, completed, n).contains(k)
            <==> exists|i: int|
            0 <= i < n && options[i].kind == k && #[trigger] building_unlocked(
                options[i],
                base_kind,
                founded,
                current_age,
                completed,
            ),
    decreases n,
{
    if n > 0 {
        lemma_available_exact(options, base_kind, founded, current_age, completed, n - 1);
        let prev = unlocked_kinds(options, base_kind, founded, current_age, completed, n - 1);
        let cur = unlocked_kinds(options, base_kind, founded, current_age, completed, n);
        let o = options[n - 1];
        assert forall|k: u32| #[trigger] cur.contains(k) <==> exists|i: int|
            0 <= i < n && options[i].kind == k && #[trigger] building_unlocked(
                options[i],
                base_kind,
                founded,
                current_age,
                completed,
            ) by {
            if building_unlocked(o, base_kind, founded, current_age, completed) {
                if cur.contains(k) && !prev.contains(k) {
                    let j = choose|j: int| 0 <= j < cur.len() && cur[j] == k;
                    if j < prev.len() {
                        assert(prev[j] == k);
                    }
                    assert(options[n - 1].kind == k);
                }
                if prev.contains(k) {
                    let j = choose|j: int| 0 <= j < prev.len() && prev[j] == k;
                    assert(cur[j] == k);
                }
                if exists|i: int|
                    0 <= i < n && options[i].kind == k && #[trigger] building_unlocked(
                        options[i],
                        base_kind,
                        founded,
                        current_age,
                        completed,
                    ) {
                    let i = choose|i: int|
                        0 <= i < n && options[i].kind == k && #[trigger] building_unlocked(
                            options[i],
                            base_kind,
                            founded,
                            current_age,
                            completed,
                        );
                    if i == n - 1 {
                        assert(cur[prev.len() as int] == k);
                    }
                }
            } else {
                if exists|i: int|
                    0 <= i < n && options[i].kind == k && #[trigger] building_unlocked(
                        options[i],
                        base_kind,
                        founded,
                        current_age,
                        completed,
                    ) {
                    let i = choose|i: int|
                        0 <= i < n && options[i].kind == k && #[trigger] building_unlocked(
                            options[i],
                            base_kind,
                            founded,
                            current_age,
                            completed,
                        );
                    assert(i != n - 1);
                }
            }
        }
    }
}

/// How the tech tree shows a building kind.
#[derive(Clone, Copy, PartialEq, Eq, Debug)]
pub enum TechStatus {
    /// The player has completed one.
    Built,
    /// Not built yet, but its prerequisite is met.
    Available,
    /// Its prerequisite is not met.
    Locked,
}

/// One row of the tech tree.
#[derive(Clone, Copy, PartialEq, Eq, Debug)]
pub struct TechEntry {
    pub kind: u32,
    pub status: TechStatus,
    /// Highest level among the player's buildings of this kind (1 when
    /// there is none).
    pub level: u8,
}

/// A standing building: its owner, its kind and its level.
#[derive(Clone, Copy, PartialEq, Eq, Debug)]
pub struct BuildingLevel {
    pub faction: u8,
    pub kind: u32,
    pub level: u8,
}

/// The tech tree's prerequisite test, which ignores ages: before a base is
/// founded only the base is open; afterwards a kind is open when it has no
/// prerequisite, when its prerequisite is the base, or when its
/// prerequisite has been completed.
pub open spec fn tech_prerequisite_met(option: BuildingOption, base_kind: u32, founded: bool, completed: Seq<u32>) -> bool {
    if !founded {
        option.kind == base_kind
    } else {
        match option.prerequisite {
            None => true,
            Some(p) => p == base_kind || completed.contains(p),
        }
    }
}

pub open spec fn tech_status(option: BuildingOption, base_kind: u32, founded: bool, completed: Seq<u32>) -> TechStatus {
    if completed.contains(option.kind) {
        TechStatus::Built
    } else if tech_prerequisite_met(option, base_kind, founded, completed) {
        TechStatus::Available
    } else {
        TechStatus::Locked
    }
}

/// Highest level among the first `n` buildings that belong to `faction`
/// and are of `kind`; none when there is no such building.
pub open spec fn highest_level(buildings: Seq<BuildingLevel>, faction: u8, kind: u32, n: int) -> Option<u8>
    decreases n,
{
    if n <= 0 {
        None
    } else {
        let prev = highest_level(buildings, faction, kind, n - 1);
        let b = buildings[n - 1];
        if b.faction == faction && b.kind == kind {
            match prev {
                Some(l) if l >= b.level => Some(l),
                _ => Some(b.level),
            }
        } else {
            prev
        }
    }
}

pub open spec fn shown_level(buildings: Seq<BuildingLevel>, faction: u8, kind: u32) -> u8 {
    match highest_level(buildings, faction, kind, buildings.len() as int) {
        Some(l) => l,
        None => 1,
    }
}

/// Rows for the first `n` kinds: every kind in order, but the base once it
/// has been founded.
pub open spec fn tech_rows(
    options: Seq<BuildingOption>,
    base_kind: u32,
    founded: bool,
    completed: Seq<u32>,
    buildings: Seq<BuildingLevel>,
    faction: u8,
    n: int,
) -> Seq<TechEntry>
    decreases n,
{
    if n <= 0 {
        Seq::empty()
    } else {
        let prev = tech_rows(options, base_kind, founded, completed, buildings, faction, n - 1);
        let o = options[n - 1];
        if founded && o.kind == base_kind {
            prev
        } else {
            prev.push(
                TechEntry {
                    kind: o.kind,
                    status: tech_status(o, base_kind, founded, completed),
                    level: shown_level(buildings, faction, o.kind),
                },
            )
        }
    }
}

/// Highest level of `faction`'s buildings of `kind`, 1 when it has none.
fn level_of_kind(buildings: &Vec<BuildingLevel>, faction: u8, kind: u32) -> (r: u8)
    ensures
        r == shown_level(buildings@, faction, kind),
{
    let mut best: Option<u8> = None;
    let mut i: usize = 0;
    while i < buildings.len()
        invariant
            i <= buildings@.len(),
            best == highest_level(buildings@, faction, kind, i as int),
        decreases buildings@.len() - i,
    {
        let b = buildings[i];
        if b.faction == faction && b.kind == kind {
            best = match best {
                Some(l) if l >= b.level => Some(l),
                _ => Some(b.level),
            };
        }
        i += 1;
    }
    match best {
        Some(l) => l,
        None => 1,
    }
}

/// The rows of the tech tree for the player `faction`: each building kind
/// in the order given (the base left out once founded), whether it is
/// built, open or locked, and the highest level the player has of it.
pub fn tech_tree_rows(
    options: &Vec<BuildingOption>,
    base_kind: u32,
    founded: bool,
    completed: &Vec<u32>,
    buildings: &Vec<BuildingLevel>,
    faction: u8,
) -> (r: Vec<TechEntry>)
    ensures
        r@ == tech_rows(options@, base_kind, founded, completed@, buildings@, faction, options@.len() as int),
{
    let mut out: Vec<TechEntry> = Vec::new();
    let mut i: usize = 0;
    while i < options.len()
        invariant
            i <= options@.len(),
            out@ == tech_rows(options@, base_kind, founded, completed@, buildings@, faction, i as int),
        decreases options@.len() - i,
    {
        let o = options[i];
        if !(founded && o.kind == base_kind) {
            let status = if contains_kind(completed, o.kind) {
                TechStatus::Built
            } else {
                let open = if !founded {
                    o.kind == base_kind
                } else {
                    match o.prerequisite {
                        None => true,
                        Some(p) => p == base_kind || contains_kind(completed, p),
                    }
                };
                if open {
                    TechStatus::Available
                } else {
                    TechStatus::Locked
                }
            };
            let level = level_of_kind(buildings, faction, o.kind);
            out.push(TechEntry { kind: o.kind, status, level });
        }
        i += 1;
    }
    out
}

} // verus!
