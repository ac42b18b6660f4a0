use std::collections::HashMap;

use open_tab::breaks::{
    compute_break, find_speakers_not_in_teams, knockout_break_with_winners, tab_break, tim_break, two_thirds_break,
    BreakConfig, KoDebate, KoSpeech, MakeBreakError, ScoreComparison,
};
use open_tab::datastructures::SpeechRole;
use open_tab::participants::{Participant, ParticipantRole};

fn members() -> HashMap<u128, Vec<u128>> {
    let mut m = HashMap::new();
    for t in 1..=6u128 {
        m.insert(t, vec![t * 10, t * 10 + 1, t * 10 + 2]);
    }
    m
}

fn speaker_ranking() -> Vec<u128> {
    vec![10, 20, 11, 30, 40, 21, 50, 60, 12]
}

#[test]
fn tab_break_takes_best_teams_and_speakers_outside_them() {
    let teams = vec![1u128, 2, 3, 4, 5, 6];
    let r = tab_break(&teams, &speaker_ranking(), &members(), 2, 3).unwrap();
    assert_eq!(r.breaking_teams, vec![1, 2]);
    assert_eq!(r.breaking_speakers, vec![30, 40, 50]);
}

#[test]
fn tab_break_needs_enough_teams() {
    let teams = vec![1u128, 2];
    assert_eq!(tab_break(&teams, &speaker_ranking(), &members(), 3, 0).err(), Some(MakeBreakError::NotEnoughTeams));
}

#[test]
fn two_thirds_break_takes_two_thirds() {
    let teams = vec![1u128, 2, 3, 4, 5, 6];
    let r = two_thirds_break(&teams, &speaker_ranking(), &members()).unwrap();
    assert_eq!(r.breaking_teams, vec![1, 2, 3, 4]);
    assert_eq!(r.breaking_speakers, vec![50, 60]);
}

#[test]
fn two_thirds_break_needs_a_multiple_of_three() {
    let teams = vec![1u128, 2, 3, 4];
    assert_eq!(two_thirds_break(&teams, &vec![], &members()).err(), Some(MakeBreakError::InvalidTeamCount));
    assert_eq!(two_thirds_break(&vec![], &vec![], &members()).err(), Some(MakeBreakError::InvalidTeamCount));
}

#[test]
fn speakers_outside_teams_keep_ranking_order() {
    let r = find_speakers_not_in_teams(&vec![2, 7], &vec![20, 10, 21, 70, 11], &members());
    assert_eq!(r, vec![10, 70, 11]);
}

fn speech(role: SpeechRole, speaker: u128, rank: u64) -> KoSpeech {
    KoSpeech { role, speaker: Some(speaker), rank }
}

fn ko_round() -> Vec<KoDebate> {
    vec![
        KoDebate {
            government: Some(1),
            opposition: Some(2),
            scores: Some(ScoreComparison::GovernmentAhead),
            speeches: vec![
                speech(SpeechRole::Government, 10, 5),
                speech(SpeechRole::Opposition, 20, 4),
                speech(SpeechRole::NonAligned, 50, 2),
            ],
        },
        KoDebate {
            government: Some(3),
            opposition: Some(4),
            scores: Some(ScoreComparison::OppositionAhead),
            speeches: vec![
                speech(SpeechRole::Government, 30, 1),
                speech(SpeechRole::Opposition, 40, 6),
                speech(SpeechRole::NonAligned, 60, 3),
            ],
        },
    ]
}

#[test]
fn knockout_break_takes_winners_and_best_other_speakers() {
    let order = vec![10u128, 20, 30, 40, 50, 60, 12];
    let winners = vec![SpeechRole::Government, SpeechRole::Opposition];
    let r = knockout_break_with_winners(&BreakConfig::KnockoutBreak, &ko_round(), &winners, &order, &members()).unwrap();
    assert_eq!(r.breaking_teams, vec![1, 4]);
    assert_eq!(r.breaking_speakers, vec![30]);
    let r = knockout_break_with_winners(&BreakConfig::TeamOnlyKnockoutBreak, &ko_round(), &winners, &order, &members())
        .unwrap();
    assert_eq!(r.breaking_teams, vec![1, 4]);
    assert!(r.breaking_speakers.is_empty());
    let r = knockout_break_with_winners(&BreakConfig::BestSpeakerOnlyBreak, &ko_round(), &winners, &order, &members())
        .unwrap();
    assert!(r.breaking_teams.is_empty());
    assert_eq!(r.breaking_speakers, vec![20]);
}

#[test]
fn knockout_break_needs_scores() {
    let mut round = ko_round();
    round[1].scores = None;
    let winners = vec![SpeechRole::Government, SpeechRole::Government];
    assert_eq!(
        knockout_break_with_winners(&BreakConfig::KnockoutBreak, &round, &winners, &vec![], &members()).err(),
        Some(MakeBreakError::KORoundIncompleteRound)
    );
}

#[test]
fn knockout_break_needs_enough_tab_speakers() {
    let winners = vec![SpeechRole::Government, SpeechRole::Opposition];
    let order = vec![10u128, 20, 40];
    assert_eq!(
        knockout_break_with_winners(&BreakConfig::KnockoutBreak, &ko_round(), &winners, &order, &members()).err(),
        Some(MakeBreakError::NotEnoughTeams)
    );
}

#[test]
fn tim_break_keeps_teams_unbeaten_by_lower_teams() {
    let ranking = vec![1u128, 2, 3, 4, 5, 6];
    let round = vec![
        KoDebate { government: Some(1), opposition: Some(3), scores: None, speeches: vec![] },
        KoDebate { government: Some(2), opposition: Some(4), scores: None, speeches: vec![] },
    ];
    let all_teams = vec![6u128, 5, 4, 3, 2, 1];
    let r = tim_break(&ranking, &speaker_ranking(), &members(), &all_teams, &Some(round)).unwrap();
    assert_eq!(r.breaking_teams, vec![1, 2, 5, 6]);
    assert_eq!(r.breaking_speakers, vec![30, 40]);
    assert_eq!(
        tim_break(&ranking, &speaker_ranking(), &members(), &all_teams, &None).err(),
        Some(MakeBreakError::KOBreakConditionNotMet)
    );
}

fn speaker(uuid: u128, team: u128) -> Participant {
    Participant {
        uuid,
        role: ParticipantRole::Speaker { team_id: Some(team) },
        break_category_id: None,
        institutions: vec![],
    }
}

#[test]
fn compute_break_ranks_only_eligible_participants() {
    let participants: Vec<Participant> = vec![speaker(10, 1), speaker(20, 2), speaker(30, 3)];
    let team_order = vec![3u128, 9, 1, 2];
    let speaker_order = vec![30u128, 99, 20, 10];
    let r = compute_break(
        &BreakConfig::TabBreak { num_teams: 2, num_non_aligned: 5 },
        &vec![],
        &participants,
        &team_order,
        &speaker_order,
        &members(),
        &vec![1, 2, 3],
        &None,
    )
    .unwrap();
    assert_eq!(r.breaking_teams, vec![3, 1]);
    assert_eq!(r.breaking_speakers, vec![20]);
    let manual = compute_break(
        &BreakConfig::Manual,
        &vec![],
        &participants,
        &team_order,
        &speaker_order,
        &members(),
        &vec![],
        &None,
    );
    assert_eq!(manual.err(), Some(MakeBreakError::IsManualBreak));
    let ko = compute_break(
        &BreakConfig::KnockoutBreak,
        &vec![],
        &participants,
        &team_order,
        &speaker_order,
        &members(),
        &vec![],
        &None,
    );
    assert_eq!(ko.err(), Some(MakeBreakError::KOBreakConditionNotMet));
}

#[test]
fn error_messages() {
    assert_eq!(MakeBreakError::InvalidTeamCount.message(), "Invalid team count");
    assert_eq!(MakeBreakError::IsManualBreak.message(), "Manual breaks can not be automatically computed");
}

#[test]
fn folding_pairs_meet_in_the_middle() {
    let mut it = open_tab::breaks::FoldingPairIterator::new(4);
    assert_eq!(it.next(), Some((0, 3)));
    assert_eq!(it.next(), Some((1, 2)));
    assert_eq!(it.next(), Some((2, 1)));
    assert_eq!(it.next(), Some((3, 0)));
    assert_eq!(it.next(), None);
    assert_eq!(it.next(), None);
    let mut empty = open_tab::breaks::FoldingPairIterator::new(0);
    assert_eq!(empty.next(), None);
}
