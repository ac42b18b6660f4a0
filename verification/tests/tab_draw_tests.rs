use open_tab::tab_draw::{
    assign_teams, pair_speakers, pair_teams, FoldDrawConfig, NonAlignedFoldMethod, TeamAssignmentRule, TeamFoldMethod,
    TeamPair,
};

fn get_teams(n: usize) -> Vec<u128> {
    (0..n).map(|i| i as u128).collect()
}

fn pairs_to_team_pairs(pairs: Vec<(i16, i16)>) -> Vec<TeamPair> {
    pairs
        .iter()
        .map(|p| TeamPair { government_id: p.0 as u128, opposition_id: p.1 as u128 })
        .collect()
}

#[test]
fn test_power_pairing() {
    let teams = get_teams(12);
    let pairs = pair_teams(&teams, &TeamFoldMethod::PowerPaired);
    assert_eq!(pairs, pairs_to_team_pairs(vec![(0, 1), (2, 3), (4, 5), (6, 7), (8, 9), (10, 11)]));
}

#[test]
fn test_inverse_power_pairing() {
    let teams = get_teams(12);
    let pairs = pair_teams(&teams, &TeamFoldMethod::InversePowerPaired);
    assert_eq!(pairs, pairs_to_team_pairs(vec![(0, 11), (1, 10), (2, 9), (3, 8), (4, 7), (5, 6)]));
}

#[test]
fn test_balanced_power_pairing_even_rooms() {
    let teams = get_teams(12);
    let pairs = pair_teams(&teams, &TeamFoldMethod::BalancedPowerPaired);
    assert_eq!(pairs, pairs_to_team_pairs(vec![(0, 5), (1, 4), (2, 3), (6, 11), (7, 10), (8, 9)]));
}

#[test]
fn test_balanced_power_pairing_uneven_rooms() {
    let teams = get_teams(14);
    let pairs = pair_teams(&teams, &TeamFoldMethod::BalancedPowerPaired);
    assert_eq!(pairs, pairs_to_team_pairs(vec![(0, 5), (1, 4), (2, 3), (6, 7), (8, 13), (9, 12), (10, 11)]));
}

#[test]
fn test_half_random_even_rooms() {
    let teams = get_teams(12);
    let pairs = pair_teams(&teams, &TeamFoldMethod::HalfRandom);
    let mut upper_half_pairs_teams: Vec<_> =
        pairs.iter().take(3).flat_map(|p| vec![p.government_id, p.opposition_id].into_iter()).collect();
    let mut lower_half_pairs_teams: Vec<_> =
        pairs.iter().skip(3).take(3).flat_map(|p| vec![p.government_id, p.opposition_id].into_iter()).collect();
    upper_half_pairs_teams.sort();
    lower_half_pairs_teams.sort();

    assert_eq!(upper_half_pairs_teams, (0..6).map(|i| i as u128).collect::<Vec<_>>());
    assert_eq!(lower_half_pairs_teams, (6..12).map(|i| i as u128).collect::<Vec<_>>());
}

#[test]
fn test_half_random_uneven_rooms() {
    let teams = get_teams(14);
    let pairs = pair_teams(&teams, &TeamFoldMethod::HalfRandom);
    let mut upper_half_pairs_teams: Vec<_> =
        pairs.iter().take(3).flat_map(|p| vec![p.government_id, p.opposition_id].into_iter()).collect();
    let mut lower_half_pairs_teams: Vec<_> =
        pairs.iter().rev().take(3).flat_map(|p| vec![p.government_id, p.opposition_id].into_iter()).collect();

    let center_teams: Vec<_> =
        pairs.iter().skip(3).take(1).flat_map(|p| vec![p.government_id, p.opposition_id].into_iter()).collect();
    upper_half_pairs_teams.sort();
    lower_half_pairs_teams.sort();

    assert_eq!(upper_half_pairs_teams, (0..6).map(|i| i as u128).collect::<Vec<_>>());
    assert_eq!(lower_half_pairs_teams, (8..14).map(|i| i as u128).collect::<Vec<_>>());
    assert_eq!(center_teams, (6..8).map(|i| i as u128).collect::<Vec<_>>());
}

fn members_sorted(pairs: &[TeamPair]) -> Vec<u128> {
    let mut all: Vec<u128> = pairs.iter().flat_map(|p| vec![p.government_id, p.opposition_id]).collect();
    all.sort();
    all
}

#[test]
fn even_folds_use_every_team_once() {
    for n in [0usize, 2, 4, 6, 8, 10, 14] {
        let teams = get_teams(n);
        for method in [
            TeamFoldMethod::PowerPaired,
            TeamFoldMethod::InversePowerPaired,
            TeamFoldMethod::BalancedPowerPaired,
            TeamFoldMethod::Random,
            TeamFoldMethod::HalfRandom,
        ] {
            let pairs = pair_teams(&teams, &method);
            assert_eq!(pairs.len(), n / 2);
            assert_eq!(members_sorted(&pairs), teams);
        }
    }
}

#[test]
fn odd_power_pairing_leaves_the_last_team_out() {
    let teams = get_teams(5);
    let pairs = pair_teams(&teams, &TeamFoldMethod::PowerPaired);
    assert_eq!(pairs, pairs_to_team_pairs(vec![(0, 1), (2, 3)]));
    let pairs = pair_teams(&teams, &TeamFoldMethod::InversePowerPaired);
    assert_eq!(pairs, pairs_to_team_pairs(vec![(0, 4), (1, 3)]));
}

#[test]
fn balanced_pairing_of_five_teams_repeats_a_team() {
    let teams = get_teams(5);
    let pairs = pair_teams(&teams, &TeamFoldMethod::BalancedPowerPaired);
    assert_eq!(pairs, pairs_to_team_pairs(vec![(0, 1), (2, 3), (3, 4)]));
}

#[test]
fn tab_order_speaker_groups_are_consecutive_triples() {
    let speakers = get_teams(7);
    let groups = pair_speakers(&speakers, &NonAlignedFoldMethod::TabOrder);
    assert_eq!(groups, vec![vec![0, 1, 2], vec![3, 4, 5]]);
}

#[test]
fn random_speaker_groups_use_each_speaker_at_most_once() {
    let speakers = get_teams(9);
    let groups = pair_speakers(&speakers, &NonAlignedFoldMethod::Random);
    assert_eq!(groups.len(), 3);
    let mut all: Vec<u128> = groups.into_iter().flatten().collect();
    all.sort();
    assert_eq!(all, speakers);
}

#[test]
fn assigned_sides_keep_every_pair() {
    let pairs = pairs_to_team_pairs(vec![(0, 1), (2, 3), (4, 5)]);
    let config = FoldDrawConfig {
        team_fold_method: TeamFoldMethod::PowerPaired,
        non_aligned_fold_method: NonAlignedFoldMethod::TabOrder,
        team_assignment_rule: TeamAssignmentRule::Random,
    };
    let out = assign_teams(pairs.clone(), &config, None);
    assert_eq!(out.len(), 3);
    for (a, b) in out.iter().zip(pairs.iter()) {
        assert!(a == b || (a.government_id == b.opposition_id && a.opposition_id == b.government_id));
    }
}

#[test]
fn pair_inversion_and_shuffle() {
    let p = TeamPair { government_id: 1, opposition_id: 2 };
    assert_eq!(p.inverted(), TeamPair { government_id: 2, opposition_id: 1 });
    let s = p.shuffled();
    assert!(s == p || s == p.inverted());
}
