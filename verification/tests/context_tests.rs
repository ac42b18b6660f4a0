use open_tab::clashes::{ClashType, DrawEvaluationContext, HistoryEntry, HistoryRole, ParticipantsDebateHistory};
use open_tab::datastructures::{Ballot, Speech, SpeechRole};
use open_tab::participants::{Participant, ParticipantRole};
use open_tab::tournament_context::{declared_clash_table, RoundBallots};
use open_tab::upload::NewClash;

fn participant(uuid: u128, role: ParticipantRole) -> Participant {
    Participant { uuid, role, break_category_id: None, institutions: vec![] }
}

fn clash(declaring: u128, target: u128, severity: u16) -> NewClash {
    NewClash { uuid: 0, declaring_participant_id: declaring, target_participant_id: target, clash_severity: severity }
}

fn ballot(gov: u128, opp: u128, adjudicators: Vec<u128>, non_aligned: Option<u128>) -> Ballot {
    Ballot {
        uuid: 0,
        government: Some(gov),
        opposition: Some(opp),
        speeches: vec![Speech { speaker: non_aligned, role: SpeechRole::NonAligned, position: 0 }],
        adjudicators,
        president: None,
    }
}

#[test]
fn the_clash_table_keeps_the_strongest_clash_both_ways() {
    let t = declared_clash_table(&vec![clash(1, 2, 30), clash(2, 1, 50), clash(1, 3, 20), clash(3, 1, 10), clash(4, 4, 5)]);
    assert_eq!(t[&1][&2], 50);
    assert_eq!(t[&2][&1], 50);
    assert_eq!(t[&1][&3], 20);
    assert_eq!(t[&3][&1], 20);
    assert_eq!(t[&4][&4], 5);
    assert!(!t[&2].contains_key(&3));
    assert!(!t.contains_key(&5));
}

#[test]
fn the_context_holds_teams_members_and_participants() {
    let participants = vec![
        participant(1, ParticipantRole::Speaker { team_id: Some(10) }),
        participant(2, ParticipantRole::Speaker { team_id: Some(10) }),
        participant(3, ParticipantRole::Speaker { team_id: None }),
        participant(4, ParticipantRole::Adjudicator),
        participant(5, ParticipantRole::Speaker { team_id: Some(11) }),
    ];
    let c = DrawEvaluationContext::new_for_tournament(participants, &vec![clash(1, 5, 40)], &vec![]);
    assert_eq!(c.speaker_teams.len(), 3);
    assert_eq!(c.speaker_teams[&1], 10);
    assert_eq!(c.speaker_teams[&5], 11);
    assert!(!c.speaker_teams.contains_key(&3));
    assert_eq!(c.team_members[&10], vec![1, 2]);
    assert_eq!(c.team_members[&11], vec![5]);
    assert_eq!(c.team_members.len(), 2);
    assert_eq!(c.participants_by_id.len(), 5);
    assert_eq!(c.participants_by_id[&4].role, ParticipantRole::Adjudicator);
    assert_eq!(c.participant_declared_clashes[&5][&1], 40);
    assert!(c.history.participant_debates.is_empty());
    assert_eq!(c.permanent_clashes_between(5, 1), vec![ClashType::DeclaredClash { severity: 40 }]);
}

#[test]
fn the_history_records_every_debate_of_every_round() {
    let participants = vec![
        participant(1, ParticipantRole::Speaker { team_id: Some(10) }),
        participant(2, ParticipantRole::Speaker { team_id: Some(11) }),
        participant(3, ParticipantRole::Speaker { team_id: None }),
        participant(4, ParticipantRole::Adjudicator),
        participant(6, ParticipantRole::Adjudicator),
    ];
    let rounds = vec![
        RoundBallots { round_id: 100, debates: vec![(200, ballot(10, 11, vec![4, 6], Some(3)))] },
        RoundBallots { round_id: 101, debates: vec![(201, ballot(11, 10, vec![6], None))] },
    ];
    let c = DrawEvaluationContext::new_for_tournament(participants, &vec![], &rounds);
    let h = &c.history.participant_debates;
    assert_eq!(h[&1][&100], HistoryEntry { role: HistoryRole::Team, debate_id: 200 });
    assert_eq!(h[&3][&100], HistoryEntry { role: HistoryRole::NonAligned, debate_id: 200 });
    assert_eq!(h[&4][&100], HistoryEntry { role: HistoryRole::Chair, debate_id: 200 });
    assert_eq!(h[&6][&100], HistoryEntry { role: HistoryRole::Wing, debate_id: 200 });
    assert_eq!(h[&6][&101], HistoryEntry { role: HistoryRole::Chair, debate_id: 201 });
    assert_eq!(h[&2][&101], HistoryEntry { role: HistoryRole::Team, debate_id: 201 });
    assert!(!h[&3].contains_key(&101));
    assert!(!h[&4].contains_key(&101));

    let alone = ParticipantsDebateHistory::new_for_tournament(&rounds, &c.team_members);
    assert_eq!(alone.participant_debates, c.history.participant_debates);
}
