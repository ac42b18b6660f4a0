use open_tab::datastructures::{Ballot, DrawBallot, Speech, SpeechRole};
use open_tab::draw_updates::{
    accepts_backup_ballot, auto_accept_ballots, fit_debates, update_ballot, BackupBallotArrival, DrawDebateUpdate,
    RedrawMode, RedrawRoundAction, ScoredBallot, ScoredSpeech, TournamentDebate, UpdateDrawAction, UpdateDrawError,
};

fn speech(speaker: Option<u128>, role: SpeechRole, position: u8, scores: Vec<(u128, f64)>) -> ScoredSpeech<f64> {
    ScoredSpeech { speaker, role, position, scores, is_opt_out: false }
}

fn stored_ballot() -> ScoredBallot<f64, f64> {
    ScoredBallot {
        uuid: 40,
        government: Some(1),
        government_scores: vec![(7, 150.0), (8, 151.0), (99, 10.0)],
        opposition: Some(2),
        opposition_scores: vec![(8, 149.0), (7, 148.0)],
        speeches: vec![
            speech(Some(11), SpeechRole::Government, 0, vec![(7, 70.0), (8, 71.0)]),
            speech(Some(20), SpeechRole::NonAligned, 0, vec![(8, 60.0)]),
            speech(Some(21), SpeechRole::NonAligned, 1, vec![(7, 61.0)]),
            speech(Some(22), SpeechRole::NonAligned, 2, vec![]),
        ],
        adjudicators: vec![7, 8],
        president: Some(30),
    }
}

fn draw(non_aligned: Vec<Option<u128>>, adjudicators: Vec<u128>) -> DrawBallot {
    DrawBallot {
        uuid: 40,
        government: Some(3),
        opposition: Some(2),
        adjudicators,
        non_aligned_speakers: non_aligned,
        president: None,
    }
}

#[test]
fn fewer_slots_drop_the_last_non_aligned_speeches() {
    let r = update_ballot(stored_ballot(), &draw(vec![Some(25), None], vec![8, 9]));
    assert_eq!(r.uuid, 40);
    assert_eq!(r.government, Some(3));
    assert_eq!(r.opposition, Some(2));
    assert_eq!(r.adjudicators, vec![8, 9]);
    assert_eq!(r.president, None);
    assert_eq!(r.speeches.len(), 3);
    assert_eq!((r.speeches[0].speaker, r.speeches[0].role, r.speeches[0].position), (Some(11), SpeechRole::Government, 0));
    assert_eq!((r.speeches[1].speaker, r.speeches[1].role, r.speeches[1].position), (Some(25), SpeechRole::NonAligned, 0));
    assert_eq!((r.speeches[2].speaker, r.speeches[2].role, r.speeches[2].position), (None, SpeechRole::NonAligned, 1));
    // adjudicator 7 left the panel: every score of theirs is gone, others stay
    assert_eq!(r.speeches[0].scores, vec![(8, 71.0)]);
    assert_eq!(r.speeches[1].scores, vec![(8, 60.0)]);
    assert!(r.speeches[2].scores.is_empty());
    assert_eq!(r.government_scores, vec![(8, 151.0), (99, 10.0)]);
    assert_eq!(r.opposition_scores, vec![(8, 149.0)]);
}

#[test]
fn more_slots_add_empty_non_aligned_speeches() {
    let r = update_ballot(stored_ballot(), &draw(vec![Some(25), Some(26), Some(27), Some(28), None], vec![7, 8]));
    assert_eq!(r.speeches.len(), 6);
    let na: Vec<(Option<u128>, u8, usize)> = r
        .speeches
        .iter()
        .filter(|s| s.role == SpeechRole::NonAligned)
        .map(|s| (s.speaker, s.position, s.scores.len()))
        .collect();
    assert_eq!(na, vec![(Some(25), 0, 1), (Some(26), 1, 1), (Some(27), 2, 0), (Some(28), 3, 0), (None, 4, 0)]);
    assert!(r.speeches.iter().all(|s| !s.is_opt_out));
    // nobody left the panel, so no score is dropped
    assert_eq!(r.government_scores.len(), 3);
    assert_eq!(r.opposition_scores.len(), 2);
}

#[test]
fn a_speech_beyond_the_slots_is_dropped_by_its_position() {
    let mut b = stored_ballot();
    b.speeches = vec![
        speech(Some(20), SpeechRole::NonAligned, 5, vec![]),
        speech(Some(21), SpeechRole::NonAligned, 0, vec![]),
    ];
    let r = update_ballot(b, &draw(vec![Some(30), Some(31)], vec![7, 8]));
    // the first non-aligned speech takes slot 0 but its position 5 is beyond
    // the two slots, so it goes; the second takes slot 1 and stays
    assert_eq!(r.speeches.len(), 1);
    assert_eq!((r.speeches[0].speaker, r.speeches[0].position), (Some(31), 0));
}

#[test]
fn a_new_ballot_is_filled_from_the_draw() {
    let action = UpdateDrawAction { updated_ballots: vec![draw(vec![Some(5)], vec![7])], updated_debates: vec![] };
    let changes = action.get_changes::<f64, f64>(vec![None], &vec![]).unwrap();
    assert_eq!(changes.ballots.len(), 1);
    let b = &changes.ballots[0];
    assert_eq!(b.uuid, 40);
    assert_eq!(b.adjudicators, vec![7]);
    assert_eq!(b.speeches.len(), 1);
    assert_eq!((b.speeches[0].speaker, b.speeches[0].role, b.speeches[0].position), (Some(5), SpeechRole::NonAligned, 0));
    assert!(b.government_scores.is_empty());
    assert!(changes.debates.is_empty());
}

#[test]
fn only_the_venue_of_a_debate_changes() {
    let stored = TournamentDebate {
        uuid: 60,
        round_id: 61,
        index: 3,
        ballot_id: 40,
        is_motion_released_to_non_aligned: true,
        venue_id: Some(70),
    };
    let action = UpdateDrawAction { updated_ballots: vec![], updated_debates: vec![DrawDebateUpdate { uuid: 60, venue: Some(71) }] };
    let changes = action.get_changes::<f64, f64>(vec![], &vec![Some(stored)]).unwrap();
    assert_eq!(changes.debates, vec![TournamentDebate { venue_id: Some(71), ..stored }]);
}

#[test]
fn a_missing_debate_refuses_the_edit() {
    let stored = TournamentDebate {
        uuid: 60,
        round_id: 61,
        index: 0,
        ballot_id: 40,
        is_motion_released_to_non_aligned: false,
        venue_id: None,
    };
    let action = UpdateDrawAction {
        updated_ballots: vec![draw(vec![], vec![])],
        updated_debates: vec![
            DrawDebateUpdate { uuid: 60, venue: None },
            DrawDebateUpdate { uuid: 62, venue: None },
            DrawDebateUpdate { uuid: 63, venue: None },
        ],
    };
    match action.get_changes::<f64, f64>(vec![Some(stored_ballot())], &vec![Some(stored), None, None]) {
        Err(e) => {
            assert_eq!(e, UpdateDrawError::DebateNotFound { debate: 62 });
            assert_eq!(e.message(), "Debate not found");
        }
        Ok(_) => panic!("a missing debate was accepted"),
    }
}

fn existing_debate(uuid: u128, index: u64, ballot_id: u128, venue_id: Option<u128>) -> TournamentDebate {
    TournamentDebate { uuid, round_id: 5, index, ballot_id, is_motion_released_to_non_aligned: true, venue_id }
}

#[test]
fn more_ballots_add_numbered_debates_with_free_venues() {
    let existing = vec![existing_debate(1, 0, 100, Some(201)), existing_debate(2, 1, 0, None)];
    let r = fit_debates(5, &existing, 4, &vec![200, 201, 202, 203]);
    assert_eq!(r.debates.len(), 4);
    assert_eq!(r.debates[0], existing[0]);
    assert_eq!((r.debates[1].uuid, r.debates[1].index, r.debates[1].venue_id), (2, 1, Some(200)));
    assert_ne!(r.debates[1].ballot_id, 0);
    for (k, venue) in [(2usize, 202u128), (3, 203)] {
        let d = r.debates[k];
        assert_eq!((d.round_id, d.index, d.venue_id), (5, k as u64, Some(venue)));
        assert!(!d.is_motion_released_to_non_aligned);
        assert_ne!(d.ballot_id, 0);
    }
    assert!(r.deleted_debates.is_empty());
    assert!(r.deleted_ballots.is_empty());
}

#[test]
fn too_few_free_venues_leave_every_free_debate_without_one() {
    let existing = vec![existing_debate(1, 0, 100, Some(201))];
    let r = fit_debates(5, &existing, 3, &vec![200, 201]);
    assert_eq!(r.debates[0].venue_id, Some(201));
    assert_eq!(r.debates[1].venue_id, None);
    assert_eq!(r.debates[2].venue_id, None);
}

#[test]
fn fewer_ballots_give_up_the_last_debates_and_their_ballots() {
    let existing = vec![
        existing_debate(1, 0, 100, Some(201)),
        existing_debate(2, 1, 101, None),
        existing_debate(3, 2, 102, None),
    ];
    let r = fit_debates(5, &existing, 1, &vec![]);
    assert_eq!(r.debates, vec![existing[0]]);
    assert_eq!(r.deleted_debates, vec![2, 3]);
    assert_eq!(r.deleted_ballots, vec![101, 102]);
}

fn plain_ballot(uuid: u128, gov: u128, non_aligned: Vec<Option<u128>>) -> Ballot {
    let mut speeches = vec![Speech { speaker: Some(1), role: SpeechRole::Government, position: 0 }];
    for (i, s) in non_aligned.into_iter().enumerate() {
        speeches.push(Speech { speaker: s, role: SpeechRole::NonAligned, position: i as u8 });
    }
    Ballot { uuid, government: Some(gov), opposition: Some(2), speeches, adjudicators: vec![7], president: None }
}

#[test]
fn a_backup_with_the_same_debaters_is_accepted_unless_scored() {
    let current = plain_ballot(40, 1, vec![Some(5), None]);
    let backup = plain_ballot(41, 1, vec![Some(5), None]);
    assert!(accepts_backup_ballot(&current, false, &backup));
    assert!(!accepts_backup_ballot(&current, true, &backup));
    assert!(!accepts_backup_ballot(&current, false, &plain_ballot(41, 3, vec![Some(5), None])));
    assert!(!accepts_backup_ballot(&current, false, &plain_ballot(41, 1, vec![Some(5)])));
    assert!(!accepts_backup_ballot(&current, false, &plain_ballot(41, 1, vec![None, Some(5)])));
}

#[test]
fn accepted_backups_replace_the_ballots_of_their_debates() {
    let debate = TournamentDebate {
        uuid: 60,
        round_id: 61,
        index: 0,
        ballot_id: 40,
        is_motion_released_to_non_aligned: false,
        venue_id: Some(3),
    };
    let arrivals = vec![
        BackupBallotArrival {
            debate,
            current: plain_ballot(40, 1, vec![]),
            current_is_scored: false,
            backup: plain_ballot(41, 1, vec![]),
        },
        BackupBallotArrival {
            debate: TournamentDebate { uuid: 62, ballot_id: 42, ..debate },
            current: plain_ballot(42, 1, vec![]),
            current_is_scored: true,
            backup: plain_ballot(43, 1, vec![]),
        },
    ];
    let r = auto_accept_ballots(&arrivals);
    assert_eq!(r.debates, vec![TournamentDebate { ballot_id: 41, ..debate }]);
    assert_eq!(r.deleted_ballots, vec![40]);
    assert!(auto_accept_ballots(&vec![]).debates.is_empty());
}

#[test]
fn redrawn_venues_follow_the_venue_order() {
    let action = RedrawRoundAction { round_id: 5, mode: RedrawMode::Venues };
    let debates = vec![
        existing_debate(1, 0, 100, None),
        existing_debate(2, 1, 101, Some(3)),
        existing_debate(3, 2, 102, Some(9)),
    ];
    let r = action.get_changes(&debates, &vec![8, 9]);
    assert_eq!(r.len(), 3);
    assert_eq!(r[0], TournamentDebate { venue_id: Some(8), ..debates[0] });
    assert_eq!(r[1], TournamentDebate { venue_id: Some(9), ..debates[1] });
    assert_eq!(r[2], TournamentDebate { venue_id: None, ..debates[2] });
    assert!(action.get_changes(&vec![], &vec![8]).is_empty());
}
