use std::collections::HashMap;

use open_tab::datastructures::{Ballot, DrawBallot, Speech, SpeechRole};
use open_tab::round_draw::{fold_draw_rounds, get_gov_opp_assignments_from_ballots, round_draw_from_team_and_speaker_pairs};
use open_tab::tab_draw::{
    FoldDrawConfig, NonAlignedFoldMethod, TeamAssignmentRule, TeamFoldMethod, TeamPair, TeamRoundRole,
};

#[test]
fn ballots_from_pairs_pad_missing_speaker_groups() {
    let pairs = vec![
        TeamPair { government_id: 1, opposition_id: 2 },
        TeamPair { government_id: 3, opposition_id: 4 },
    ];
    let ballots = round_draw_from_team_and_speaker_pairs(pairs, vec![vec![7, 8, 9]]);
    assert_eq!(ballots.len(), 2);
    assert_eq!(ballots[0].government, Some(1));
    assert_eq!(ballots[0].opposition, Some(2));
    assert_eq!(ballots[0].non_aligned_speakers, vec![Some(7), Some(8), Some(9)]);
    assert!(ballots[1].non_aligned_speakers.is_empty());
    assert!(ballots[1].adjudicators.is_empty());
    assert_ne!(ballots[0].uuid, ballots[1].uuid);
}

#[test]
fn ballots_from_pairs_drop_extra_speaker_groups() {
    let pairs = vec![TeamPair { government_id: 1, opposition_id: 2 }];
    let ballots = round_draw_from_team_and_speaker_pairs(pairs, vec![vec![7, 8, 9], vec![10, 11, 12]]);
    assert_eq!(ballots.len(), 1);
}

fn ballot(gov: Option<u128>, opp: Option<u128>) -> Ballot {
    Ballot {
        uuid: 0,
        government: gov,
        opposition: opp,
        speeches: vec![Speech { speaker: Some(5), role: SpeechRole::NonAligned, position: 0 }],
        adjudicators: vec![],
        president: None,
    }
}

#[test]
fn roles_from_ballots() {
    let m = get_gov_opp_assignments_from_ballots(&vec![ballot(Some(1), Some(2)), ballot(None, Some(3)), ballot(Some(2), None)]);
    assert_eq!(m.len(), 3);
    assert_eq!(m.get(&1), Some(&TeamRoundRole::Government));
    assert_eq!(m.get(&2), Some(&TeamRoundRole::Government));
    assert_eq!(m.get(&3), Some(&TeamRoundRole::Opposition));
}

#[test]
fn fold_draw_rounds_pair_every_team_each_round() {
    let teams: Vec<u128> = (1..=8).collect();
    let speakers: Vec<u128> = (100..106).collect();
    let configs = vec![
        FoldDrawConfig {
            team_fold_method: TeamFoldMethod::PowerPaired,
            non_aligned_fold_method: NonAlignedFoldMethod::TabOrder,
            team_assignment_rule: TeamAssignmentRule::Random,
        },
        FoldDrawConfig {
            team_fold_method: TeamFoldMethod::BalancedPowerPaired,
            non_aligned_fold_method: NonAlignedFoldMethod::Random,
            team_assignment_rule: TeamAssignmentRule::InvertPrevious,
        },
    ];
    let rounds = fold_draw_rounds(&teams, &speakers, &configs, Some(HashMap::new()));
    assert_eq!(rounds.len(), 2);
    for round in rounds.iter() {
        assert_eq!(round.len(), 4);
        let mut seen: Vec<u128> =
            round.iter().flat_map(|b: &DrawBallot| vec![b.government.unwrap(), b.opposition.unwrap()]).collect();
        seen.sort();
        assert_eq!(seen, teams);
        assert_eq!(round[0].non_aligned_speakers.len(), 3);
        assert_eq!(round[2].non_aligned_speakers.len(), 0);
    }
    let first = &rounds[0];
    let mut sides = vec![first[0].government.unwrap(), first[0].opposition.unwrap()];
    sides.sort();
    assert_eq!(sides, vec![1, 2]);
    assert_eq!(first[0].non_aligned_speakers, vec![Some(100), Some(101), Some(102)]);
}
