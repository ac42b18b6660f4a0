use std::collections::HashSet;

use open_tab::clashes::{HistoryEntry, HistoryRole};
use open_tab::datastructures::Ballot;
use open_tab::draw_updates::TournamentDebate;
use open_tab::observing::{add_affected, ObservedChanges, TournamentObservingDrawEvaluationContext};
use open_tab::participants::{Participant, ParticipantRole};
use open_tab::tournament_context::RoundBallots;
use open_tab::upload::NewClash;

fn participant(uuid: u128, role: ParticipantRole) -> Participant {
    Participant { uuid, role, break_category_id: None, institutions: vec![] }
}

fn participants() -> Vec<Participant> {
    vec![
        participant(1, ParticipantRole::Speaker { team_id: Some(10) }),
        participant(2, ParticipantRole::Speaker { team_id: Some(11) }),
        participant(4, ParticipantRole::Adjudicator),
        participant(6, ParticipantRole::Adjudicator),
    ]
}

fn ballot(uuid: u128, adjudicators: Vec<u128>) -> Ballot {
    Ballot { uuid, government: Some(10), opposition: Some(11), speeches: vec![], adjudicators, president: None }
}

fn clash(uuid: u128, declaring: u128, target: u128, severity: u16) -> NewClash {
    NewClash { uuid, declaring_participant_id: declaring, target_participant_id: target, clash_severity: severity }
}

fn no_changes() -> ObservedChanges {
    ObservedChanges {
        deleted_debates: vec![],
        changed_debates: vec![],
        changed_ballots: vec![],
        participants_changed: false,
        deleted_participants: vec![],
        deleted_clashes: vec![],
        added_clashes: vec![],
    }
}

fn observed() -> TournamentObservingDrawEvaluationContext {
    let rounds = vec![RoundBallots { round_id: 100, debates: vec![(200, ballot(300, vec![4]))] }];
    TournamentObservingDrawEvaluationContext::new_from_tournament(7, participants(), &vec![clash(900, 1, 2, 40)], &rounds)
}

fn set(v: &[u128]) -> HashSet<u128> {
    v.iter().copied().collect()
}

#[test]
fn the_observing_context_starts_from_the_recorded_debates() {
    let c = observed();
    assert_eq!(c.tournament_id, 7);
    assert_eq!(c.debate_rounds[&200], 100);
    assert_eq!(c.debate_active_ballots[&200], 300);
    assert_eq!(c.clash_participants[&900], (1, 2));
    assert_eq!(c.context.participant_declared_clashes[&2][&1], 40);
    assert_eq!(c.context.history.participant_debates[&4][&100], HistoryEntry { role: HistoryRole::Chair, debate_id: 200 });
    let mut in_round: Vec<u128> = c.debate_participants[&100].clone();
    in_round.sort();
    assert_eq!(in_round, vec![1, 2, 4]);
}

#[test]
fn a_new_ballot_of_a_debate_is_loaded_and_recorded() {
    let mut c = observed();
    let mut changes = no_changes();
    changes.changed_debates = vec![TournamentDebate {
        uuid: 200,
        round_id: 100,
        index: 0,
        ballot_id: 301,
        is_motion_released_to_non_aligned: false,
        venue_id: None,
    }];
    let pending = c.begin_update(&changes);
    assert_eq!(pending.reevaluate, vec![(200, 301)]);
    assert_eq!(pending.to_load, vec![301]);
    assert_eq!(c.debate_active_ballots[&200], 301);
    let affected = c.record_pending_ballots(&pending, &vec![ballot(301, vec![6])]);
    assert_eq!(set(&affected), set(&[200]));
    assert_eq!(c.context.history.participant_debates[&6][&100], HistoryEntry { role: HistoryRole::Chair, debate_id: 200 });

    let again = c.begin_update(&changes);
    assert!(again.reevaluate.is_empty(), "the ballot already counts");
    assert!(again.to_load.is_empty());
}

#[test]
fn a_changed_ballot_is_recorded_for_the_debate_it_counts_for() {
    let mut c = observed();
    let mut changes = no_changes();
    changes.changed_ballots = vec![ballot(300, vec![6]), ballot(999, vec![])];
    let pending = c.begin_update(&changes);
    assert_eq!(pending.reevaluate, vec![(200, 300)]);
    assert!(pending.to_load.is_empty());
    let affected = c.record_pending_ballots(&pending, &changes.changed_ballots);
    assert_eq!(set(&affected), set(&[200]));
    assert_eq!(c.context.history.participant_debates[&6][&100].role, HistoryRole::Chair);
}

#[test]
fn a_deleted_debate_leaves_the_history() {
    let mut c = observed();
    let mut changes = no_changes();
    changes.deleted_debates = vec![200];
    let pending = c.begin_update(&changes);
    assert!(pending.reevaluate.is_empty());
    assert!(c.context.history.participant_debates[&1].is_empty());
    assert!(c.context.history.participant_debates[&4].is_empty());
}

#[test]
fn clash_changes_mark_participants_for_reloading() {
    let mut c = observed();
    let mut changes = no_changes();
    changes.deleted_clashes = vec![900, 901];
    changes.added_clashes = vec![clash(902, 4, 6, 20)];
    let r = c.update_clash_participants(&changes);
    assert_eq!(set(&r.reload), set(&[1, 2, 4, 6]));
    assert_eq!(r.reload.len(), 4);
    assert_eq!(set(&r.affected), set(&[200]));
    assert!(!c.clash_participants.contains_key(&900));
    assert_eq!(c.clash_participants[&902], (4, 6));
    assert!(!c.context.participant_declared_clashes.contains_key(&1));
    assert!(!c.context.participant_declared_clashes.contains_key(&2));

    c.apply_reloaded_clashes(&vec![clash(903, 2, 1, 70), clash(902, 4, 6, 20)]);
    assert_eq!(c.context.participant_declared_clashes[&1][&2], 70);
    assert_eq!(c.context.participant_declared_clashes[&2][&1], 70);
    assert_eq!(c.context.participant_declared_clashes[&6][&4], 20);
}

#[test]
fn a_deleted_participant_leaves_the_clash_table() {
    let mut c = observed();
    let mut changes = no_changes();
    changes.deleted_participants = vec![2];
    let r = c.update_clash_participants(&changes);
    assert!(r.reload.is_empty());
    assert!(!c.context.participant_declared_clashes.contains_key(&2));
    assert!(!c.context.participant_declared_clashes[&1].contains_key(&2));
}

#[test]
fn reloaded_participants_affect_every_debate_with_a_ballot() {
    let mut c = observed();
    let affected = c.reload_participants(vec![participant(1, ParticipantRole::Speaker { team_id: Some(12) })]);
    assert_eq!(set(&affected), set(&[200]));
    assert_eq!(c.context.speaker_teams[&1], 12);
    assert_eq!(c.context.team_members[&12], vec![1]);
    assert_eq!(c.context.participants_by_id.len(), 1);

    let mut total = vec![200];
    add_affected(&mut total, &vec![201, 200, 202]);
    assert_eq!(set(&total), set(&[200, 201, 202]));
    assert_eq!(total.len(), 3);
}
