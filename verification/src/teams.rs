//! Teams and AI control from the skirmish setup. Factions are known by
//! their player slot index.
use vstd::prelude::*;

verus! {

/// How the factions of a skirmish are split into teams.
#[derive(Clone, Copy, PartialEq, Eq, Debug)]
pub enum TeamMode {
    /// Every faction on its own team.
    FreeForAll,
    /// The first half of the factions against the rest.
    Teams,
    /// The team chosen for each player slot.
    Custom,
}

/// Team of the `i`-th active faction (`active[i]` is its slot).
pub open spec fn team_of(mode: TeamMode, active: Seq<usize>, player_teams: Seq<u8>, i: int) -> u8 {
    match mode {
        TeamMode::FreeForAll => i as u8,
        TeamMode::Teams => if i < active.len() / 2 {
            0
        } else {
            1
        },
        TeamMode::Custom => player_teams[active[i] as int],
    }
}

/// The slots among the first `n` active ones that no human plays, in order.
pub open spec fn ai_slots(active: Seq<usize>, humans: Seq<usize>, n: int) -> Seq<usize>
    decreases n,
{
    if n <= 0 {
        Seq::empty()
    } else {
        let prev = ai_slots(active, humans, n - 1);
        if humans.contains(active[n - 1]) {
            prev
        } else {
            prev.push(active[n - 1])
        }
    }
}

/// The team of every active faction, in the order of `active`: in
/// free-for-all each faction's position (as a byte), in team mode team 0
/// for the first half and team 1 for the rest, in custom mode the team
/// chosen for its slot.
pub fn assign_teams(mode: TeamMode, active: &Vec<usize>, player_teams: &Vec<u8>) -> (r: Vec<(usize, u8)>)
    requires
        mode == TeamMode::Custom ==> forall|i: int| 0 <= i < active@.len() ==> #[trigger] active@[i] < player_teams@.len(),
    ensures
        r@.len() == active@.len(),
        forall|i: int| 0 <= i < r@.len() ==> #[trigger] r@[i] == (active@[i], team_of(mode, active@, player_teams@, i)),
{
    let count = active.len();
    let mut out: Vec<(usize, u8)> = Vec::new();
    let mut i: usize = 0;
    while i < count
        invariant
            count == active@.len(),
            i <= count,
            out@.len() == i,
            mode == TeamMode::Custom ==> forall|k: int| 0 <= k < active@.len() ==> #[trigger] active@[k] < player_teams@.len(),
            forall|k: int| 0 <= k < i ==> #[trigger] out@[k] == (active@[k], team_of(mode, active@, player_teams@, k)),
        decreases count - i,
    {
        let slot = active[i];
        let team: u8 = match mode {
            TeamMode::FreeForAll => i as u8,
            TeamMode::Teams => if i < count / 2 {
                0
            } else {
                1
            },
            TeamMode::Custom => player_teams[slot],
        };
        out.push((slot, team));
        i += 1;
    }
    out
}

fn contains_slot(v: &Vec<usize>, x: usize) -> (r: bool)
    ensures
        r == v@.contains(x),
{
    let mut i: usize = 0;
    while i < v.len()
        invariant
            i <= v@.len(),
            forall|j: int| 0 <= j < i ==> v@[j] != x,
        decreases v@.len() - i,
    {
        if v[i] == x {
            assert(v@[i as int] == x);
            return true;
        }
        i += 1;
    }
    false
}

/// The active slots the AI plays: those no human plays, in order.
pub fn ai_factions(active: &Vec<usize>, humans: &Vec<usize>) -> (r: Vec<usize>)
    ensures
        r@ == ai_slots(active@, humans@, active@.len() as int),
{
    let mut out: Vec<usize> = Vec::new();
    let mut i: usize = 0;
    while i < active.len()
        invariant
            i <= active@.len(),
            out@ == ai_slots(active@, humans@, i as int),
        decreases active@.len() - i,
    {
        if !contains_slot(humans, active[i]) {
            out.push(active[i]);
        }
        i += 1;
    }
    out
}

} // verus!
