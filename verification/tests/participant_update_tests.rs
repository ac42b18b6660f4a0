use base64::Engine;

use open_tab::participant_updates::{
    possibly_empty_teams, teams_to_delete, ClashDirection, EntryClash, EntryInstitution, EntryRole,
    ParticipantChanges, ParticipantEntry, ParticipantTeamInfo, SavedRole, UpdateParticipantsAction,
    UpdateParticipantsError,
};

fn speaker(uuid: u128, name: &str, team: ParticipantTeamInfo) -> ParticipantEntry {
    ParticipantEntry {
        uuid,
        name: name.to_string(),
        role: EntryRole::Speaker { team_info: team },
        institutions: vec![],
        clashes: vec![],
        registration_key: None,
        is_anonymous: false,
        user_id: None,
    }
}

fn adjudicator(uuid: u128, name: &str) -> ParticipantEntry {
    ParticipantEntry {
        uuid,
        name: name.to_string(),
        role: EntryRole::Adjudicator { chair_skill: 40, panel_skill: 60, unavailable_rounds: vec![77] },
        institutions: vec![EntryInstitution { uuid: 500, clash_severity: 70 }],
        clashes: vec![],
        registration_key: None,
        is_anonymous: true,
        user_id: Some(12),
    }
}

fn new_team(name: &str) -> ParticipantTeamInfo {
    ParticipantTeamInfo::New { new_team_name: name.to_string() }
}

fn change_of(changes: &ParticipantChanges, team: u128) -> Option<i64> {
    let found: Vec<i64> = changes.member_changes.iter().filter(|(t, _)| *t == team).map(|(_, c)| *c).collect();
    assert!(found.len() <= 1);
    found.first().copied()
}

fn encoded_key() -> String {
    let bytes: Vec<u8> = (0u8..48).collect();
    base64::engine::general_purpose::URL_SAFE_NO_PAD.encode(bytes)
}

#[test]
fn added_speakers_share_a_team_created_by_name() {
    let action = UpdateParticipantsAction {
        updated_participants: vec![],
        added_participants: vec![
            speaker(0, "Ann", new_team("Team A")),
            speaker(5, "Bob", new_team("Team A")),
            speaker(6, "Cid", new_team("Team B")),
            adjudicator(7, "Dee"),
        ],
        deleted_participants: vec![],
        tournament_id: 99,
    };
    let changes = action.get_changes(&vec![], &vec![], &vec![]).unwrap();
    assert_eq!(changes.teams.len(), 2);
    assert_eq!(changes.teams[0].name, "Team A");
    assert_eq!(changes.teams[1].name, "Team B");
    assert!(changes.teams.iter().all(|t| t.tournament_id == 99));
    assert_ne!(changes.teams[0].uuid, changes.teams[1].uuid);
    assert_eq!(changes.participants.len(), 4);
    assert_ne!(changes.participants[0].uuid, 0);
    assert_eq!(changes.participants[1].uuid, 5);
    assert_eq!(changes.participants[3].uuid, 7);
    for (k, team) in [(0usize, 0usize), (1, 0), (2, 1)] {
        match &changes.participants[k].role {
            SavedRole::Speaker { team_id } => assert_eq!(*team_id, changes.teams[team].uuid),
            _ => panic!("a speaker was saved as an adjudicator"),
        }
    }
    match &changes.participants[3].role {
        SavedRole::Adjudicator { chair_skill, panel_skill, unavailable_rounds } => {
            assert_eq!((*chair_skill, *panel_skill), (40, 60));
            assert_eq!(unavailable_rounds, &vec![77]);
        }
        _ => panic!("an adjudicator was saved as a speaker"),
    }
    let adj = &changes.participants[3];
    assert_eq!(adj.institutions.len(), 1);
    assert_eq!((adj.institutions[0].uuid, adj.institutions[0].clash_severity), (500, 70));
    assert!(adj.is_anonymous);
    assert_eq!(adj.user_id, Some(12));
    assert_eq!(adj.tournament_id, 99);
    for p in &changes.participants {
        assert_eq!(p.registration_key.as_ref().map(|k| k.len()), Some(32));
    }
    assert!(changes.member_changes.is_empty());
    assert!(changes.clashes.is_empty());
    assert!(changes.deleted_clashes.is_empty());
    assert!(changes.deleted_participants.is_empty());
}

#[test]
fn member_counts_follow_joins_moves_and_deletions() {
    let action = UpdateParticipantsAction {
        updated_participants: vec![speaker(3, "Eve", ParticipantTeamInfo::Existing { team_id: 9 })],
        added_participants: vec![speaker(2, "Fay", ParticipantTeamInfo::Existing { team_id: 9 })],
        deleted_participants: vec![4],
        tournament_id: 1,
    };
    let changes = action.get_changes(&vec![vec![]], &vec![Some(8)], &vec![(4, Some(8))]).unwrap();
    assert_eq!(change_of(&changes, 9), Some(2));
    assert_eq!(change_of(&changes, 8), Some(-2));
    assert_eq!(changes.member_changes.len(), 2);
    assert_eq!(changes.deleted_participants, vec![4]);
    assert_eq!(changes.participants.len(), 2);
    assert_eq!(changes.participants[1].uuid, 3);
    assert_eq!(changes.participants[1].registration_key, None);
    let lost = possibly_empty_teams(&changes.member_changes);
    assert_eq!(lost, vec![8]);
}

#[test]
fn a_team_left_and_joined_again_keeps_an_entry_of_zero() {
    let action = UpdateParticipantsAction {
        updated_participants: vec![speaker(3, "Gus", ParticipantTeamInfo::Existing { team_id: 9 })],
        added_participants: vec![],
        deleted_participants: vec![],
        tournament_id: 1,
    };
    let changes = action.get_changes(&vec![vec![]], &vec![Some(9)], &vec![]).unwrap();
    assert_eq!(changes.member_changes, vec![(9, 0)]);
    assert!(possibly_empty_teams(&changes.member_changes).is_empty());
}

#[test]
fn updated_key_is_stored_as_its_middle_bytes() {
    let mut entry = speaker(3, "Hal", new_team("Team C"));
    entry.registration_key = Some(encoded_key());
    let action = UpdateParticipantsAction {
        updated_participants: vec![entry],
        added_participants: vec![],
        deleted_participants: vec![],
        tournament_id: 1,
    };
    let changes = action.get_changes(&vec![vec![]], &vec![None], &vec![]).unwrap();
    let expected: Vec<u8> = (16u8..48).collect();
    assert_eq!(changes.participants[0].registration_key, Some(expected));
    assert_eq!(changes.teams.len(), 1);
    assert_eq!(changes.teams[0].name, "Team C");
    assert!(changes.member_changes.is_empty());
}

#[test]
fn an_undecodable_key_refuses_the_edit() {
    let mut entry = speaker(3, "Ivy", ParticipantTeamInfo::Existing { team_id: 9 });
    entry.registration_key = Some("not base64!".to_string());
    let action = UpdateParticipantsAction {
        updated_participants: vec![entry],
        added_participants: vec![],
        deleted_participants: vec![],
        tournament_id: 1,
    };
    match action.get_changes(&vec![vec![]], &vec![None], &vec![]) {
        Err(err) => {
            assert_eq!(err, UpdateParticipantsError::InvalidRegistrationKey { participant: 3 });
            assert_eq!(err.message(), "Invalid registration key");
        }
        Ok(_) => panic!("an undecodable key was accepted"),
    }
}

#[test]
fn deleted_participants_are_not_saved() {
    let mut entry = speaker(3, "Jon", ParticipantTeamInfo::Existing { team_id: 9 });
    entry.registration_key = Some("not base64!".to_string());
    let action = UpdateParticipantsAction {
        updated_participants: vec![entry],
        added_participants: vec![],
        deleted_participants: vec![3],
        tournament_id: 1,
    };
    let changes = action.get_changes(&vec![vec![50]], &vec![Some(9)], &vec![(3, Some(9))]).unwrap();
    assert!(changes.participants.is_empty());
    assert!(changes.deleted_clashes.is_empty());
    assert_eq!(changes.deleted_participants, vec![3]);
    assert_eq!(changes.member_changes, vec![(9, -1)]);
}

#[test]
fn declared_clashes_replace_the_saved_ones() {
    let mut entry = adjudicator(3, "Kim");
    entry.clashes = vec![
        EntryClash { clash_direction: ClashDirection::Outgoing, participant_uuid: 11, clash_severity: 50 },
        EntryClash { clash_direction: ClashDirection::Incoming, participant_uuid: 12, clash_severity: 30 },
    ];
    let action = UpdateParticipantsAction {
        updated_participants: vec![entry],
        added_participants: vec![],
        deleted_participants: vec![],
        tournament_id: 1,
    };
    let changes = action.get_changes(&vec![vec![100, 101]], &vec![None], &vec![]).unwrap();
    assert_eq!(changes.clashes.len(), 1);
    assert_eq!(changes.clashes[0].declaring_participant_id, 3);
    assert_eq!(changes.clashes[0].target_participant_id, 11);
    assert_eq!(changes.clashes[0].clash_severity, 50);
    assert!(changes.clashes[0].uuid != 100 && changes.clashes[0].uuid != 101);
    assert_eq!(changes.deleted_clashes, vec![100, 101]);
}

#[test]
fn a_short_key_of_a_kept_participant_is_not_accepted() {
    let mut short = speaker(3, "Lea", ParticipantTeamInfo::Existing { team_id: 9 });
    short.registration_key = Some("AAAA".to_string());
    let action = UpdateParticipantsAction {
        updated_participants: vec![short],
        added_participants: vec![],
        deleted_participants: vec![],
        tournament_id: 1,
    };
    assert!(action.checked_get_changes(&vec![vec![]], &vec![None], &vec![]).is_none());

    let mut deleted_short = speaker(3, "Lea", ParticipantTeamInfo::Existing { team_id: 9 });
    deleted_short.registration_key = Some("AAAA".to_string());
    let mut long = speaker(4, "Max", ParticipantTeamInfo::Existing { team_id: 9 });
    long.registration_key = Some(encoded_key());
    let action = UpdateParticipantsAction {
        updated_participants: vec![deleted_short, long],
        added_participants: vec![],
        deleted_participants: vec![3],
        tournament_id: 1,
    };
    let result = action.checked_get_changes(&vec![vec![], vec![]], &vec![None, None], &vec![]);
    let changes = result.unwrap().unwrap();
    assert_eq!(changes.participants.len(), 1);
    assert_eq!(changes.participants[0].uuid, 4);
}

#[test]
fn teams_brought_to_zero_members_are_deleted() {
    let changes = vec![(1u128, -1i64), (2, 1), (3, -2)];
    assert_eq!(possibly_empty_teams(&changes), vec![1, 3]);
    assert_eq!(teams_to_delete(&changes, &vec![(1, 1), (3, 5)]), vec![1]);
    assert_eq!(teams_to_delete(&changes, &vec![(3, 2), (1, 3)]), vec![3]);
    assert!(teams_to_delete(&changes, &vec![]).is_empty());
}
