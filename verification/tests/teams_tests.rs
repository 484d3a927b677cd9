use rts_core::teams::{ai_factions, assign_teams, TeamMode};

#[test]
fn free_for_all_gives_each_faction_its_own_team() {
    let r = assign_teams(TeamMode::FreeForAll, &vec![0, 2, 5], &vec![]);
    assert_eq!(r, vec![(0, 0), (2, 1), (5, 2)]);
}

#[test]
fn team_mode_splits_in_halves() {
    let r = assign_teams(TeamMode::Teams, &vec![0, 1, 2, 3, 4], &vec![]);
    assert_eq!(r, vec![(0, 0), (1, 0), (2, 1), (3, 1), (4, 1)]);
}

#[test]
fn custom_mode_uses_chosen_teams() {
    let r = assign_teams(TeamMode::Custom, &vec![1, 3], &vec![9, 2, 9, 0]);
    assert_eq!(r, vec![(1, 2), (3, 0)]);
}

#[test]
fn ai_plays_the_slots_without_humans() {
    assert_eq!(ai_factions(&vec![0, 1, 2, 3], &vec![2, 0]), vec![1, 3]);
    assert!(ai_factions(&vec![0], &vec![0]).is_empty());
}
