use std::collections::HashMap;

use open_tab::clashes::{ClashType, DrawEvaluationContext, HistoryEntry, HistoryRole, ParticipantsDebateHistory};
use open_tab::datastructures::{Ballot, DrawBallot, Speech, SpeechRole};
use open_tab::evaluation::{BallotEvaluationResult, DrawEvaluator, DrawEvaluatorConfig};
use open_tab::participants::{Participant, ParticipantInstitution, ParticipantRole};

fn adjudicator(uuid: u128, institution: Option<(u128, u16)>) -> Participant {
    Participant {
        uuid,
        role: ParticipantRole::Adjudicator,
        break_category_id: None,
        institutions: institution
            .map(|(i, s)| vec![ParticipantInstitution { uuid: i, clash_severity: s }])
            .unwrap_or_default(),
    }
}

fn speaker(uuid: u128, team: u128) -> Participant {
    Participant {
        uuid,
        role: ParticipantRole::Speaker { team_id: Some(team) },
        break_category_id: None,
        institutions: vec![],
    }
}

fn context(participants: Vec<Participant>) -> DrawEvaluationContext {
    let mut speaker_teams = HashMap::new();
    let mut team_members: HashMap<u128, Vec<u128>> = HashMap::new();
    for p in participants.iter() {
        if let ParticipantRole::Speaker { team_id: Some(t) } = p.role {
            speaker_teams.insert(p.uuid, t);
            team_members.entry(t).or_default().push(p.uuid);
        }
    }
    DrawEvaluationContext {
        speaker_teams,
        participants_by_id: participants.into_iter().map(|p| (p.uuid, p)).collect(),
        participant_declared_clashes: HashMap::new(),
        team_members,
        history: ParticipantsDebateHistory::new(),
    }
}

fn draw_ballot(gov: u128, opp: u128, adjudicators: Vec<u128>) -> DrawBallot {
    DrawBallot {
        uuid: 1,
        government: Some(gov),
        opposition: Some(opp),
        adjudicators,
        non_aligned_speakers: vec![],
        president: None,
    }
}

#[test]
fn empty_result_has_no_severity() {
    assert_eq!(BallotEvaluationResult::new().total_severity(), 0);
}

#[test]
fn institutional_clash_between_adjudicators_counts_for_both() {
    let ctx = context(vec![adjudicator(1, Some((50, 100))), adjudicator(2, Some((50, 100)))]);
    let evaluator = DrawEvaluator::new(DrawEvaluatorConfig::default(), vec![], &ctx);
    let issues = evaluator.find_issues_in_ballot(&draw_ballot(10, 11, vec![1, 2]));
    assert_eq!(issues.adjudicator_issues.len(), 2);
    assert_eq!(issues.adjudicator_issues[&1].len(), 1);
    assert_eq!(issues.adjudicator_issues[&1][0].severity, 30);
    assert_eq!(issues.adjudicator_issues[&1][0].issue_type, ClashType::InstitutionalClash { severity: 100, institution_id: 50 });
    assert_eq!(issues.total_severity(), 60);
}

#[test]
fn teams_that_met_before_clash() {
    let mut ctx = context(vec![speaker(100, 10), speaker(101, 11)]);
    let earlier = draw_ballot(10, 11, vec![]);
    ctx.add_round_ballots(7, &vec![earlier]);
    let evaluator = DrawEvaluator::new(DrawEvaluatorConfig::default(), vec![7], &ctx);
    let issues = evaluator.find_issues_in_ballot(&draw_ballot(10, 11, vec![]));
    assert_eq!(issues.government_issues.len(), 1);
    assert_eq!(issues.opposition_issues.len(), 1);
    assert_eq!(issues.government_issues[0].issue_type, ClashType::SpeakersHaveMetAsTeam { round: 7 });
    assert_eq!(issues.government_issues[0].severity, 2);
    assert_eq!(issues.total_severity(), 4);
    let unrelated = DrawEvaluator::new(DrawEvaluatorConfig::default(), vec![8], &ctx);
    assert_eq!(unrelated.find_issues_in_ballot(&draw_ballot(10, 11, vec![])).total_severity(), 0);
}

#[test]
fn history_records_roles_of_a_ballot() {
    let mut history = ParticipantsDebateHistory::new();
    let mut members = HashMap::new();
    members.insert(10u128, vec![100u128, 101]);
    let ballot = Ballot {
        uuid: 3,
        government: Some(10),
        opposition: None,
        speeches: vec![Speech { speaker: Some(200), role: SpeechRole::NonAligned, position: 0 }],
        adjudicators: vec![300, 301],
        president: None,
    };
    let mut affected = history.add_from_ballot(5, 9, &ballot, &members);
    affected.sort();
    assert_eq!(affected, vec![100, 101, 200, 300, 301]);
    assert_eq!(history.participant_debates[&100][&5], HistoryEntry { role: HistoryRole::Team, debate_id: 9 });
    assert_eq!(history.participant_debates[&300][&5], HistoryEntry { role: HistoryRole::Chair, debate_id: 9 });
    assert_eq!(history.participant_debates[&301][&5], HistoryEntry { role: HistoryRole::Wing, debate_id: 9 });
    assert_eq!(history.participant_debates[&200][&5], HistoryEntry { role: HistoryRole::NonAligned, debate_id: 9 });
}

#[test]
fn later_listing_of_a_participant_wins() {
    let mut history = ParticipantsDebateHistory::new();
    let members: HashMap<u128, Vec<u128>> = HashMap::new();
    let ballot = DrawBallot {
        uuid: 1,
        government: Some(10),
        opposition: Some(11),
        adjudicators: vec![300],
        non_aligned_speakers: vec![Some(300), None],
        president: None,
    };
    history.add_from_draw_ballot(5, 9, &ballot, &members);
    assert_eq!(history.participant_debates.len(), 1);
    assert_eq!(history.participant_debates[&300][&5].role, HistoryRole::NonAligned);
}

#[test]
fn participants_are_grouped_by_the_keys_of_their_entries() {
    let mut history = ParticipantsDebateHistory::new();
    let mut first = HashMap::new();
    first.insert(5u128, HistoryEntry { role: HistoryRole::Chair, debate_id: 9 });
    let mut second = HashMap::new();
    second.insert(5u128, HistoryEntry { role: HistoryRole::Wing, debate_id: 9 });
    second.insert(6u128, HistoryEntry { role: HistoryRole::Team, debate_id: 11 });
    history.participant_debates.insert(100, first);
    history.participant_debates.insert(101, second);
    let grouped = history.get_debate_participants();
    assert_eq!(grouped.len(), 2);
    let mut five = grouped[&5].clone();
    five.sort();
    assert_eq!(five, vec![100, 101]);
    assert_eq!(grouped[&6], vec![101]);
    assert!(ParticipantsDebateHistory::new().get_debate_participants().is_empty());
}

#[test]
fn clashes_split_into_permanent_and_dynamic_ones() {
    let mut ctx = context(vec![speaker(100, 10), speaker(101, 10), speaker(102, 11)]);
    ctx.add_round_ballots(7, &vec![draw_ballot(10, 11, vec![])]);
    let evaluator = DrawEvaluator::new(DrawEvaluatorConfig::default(), vec![7], &ctx);
    assert_eq!(evaluator.get_permanent_clashes_between_participants(100, 101), vec![ClashType::SameTeamClash]);
    assert_eq!(
        evaluator.get_all_clashes_between_participants(100, 101),
        vec![ClashType::SameTeamClash, ClashType::SpeakersHaveMetAsTeam { round: 7 }]
    );
    assert!(evaluator.get_permanent_clashes_between_participants(100, 102).is_empty());
    assert_eq!(
        evaluator.get_dynamic_clashes_between_participants(100, 102),
        vec![ClashType::SpeakersHaveMetAsTeam { round: 7 }]
    );
    assert_eq!(
        evaluator.get_all_clashes_between_participants(100, 102),
        vec![ClashType::SpeakersHaveMetAsTeam { round: 7 }]
    );
}
