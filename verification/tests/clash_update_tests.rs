use open_tab::clash_updates::{ExistingClash, ParticipantInstitutions, UpdateClashes};
use open_tab::participants::ParticipantInstitution;

fn existing(uuid: u128, declaring: u128, target: u128) -> ExistingClash {
    ExistingClash { uuid, declaring_participant_id: declaring, target_participant_id: target }
}

fn update(
    added: Vec<(u128, u128)>,
    deleted: Vec<(u128, u128)>,
    added_institutions: Vec<(u128, u128)>,
    deleted_institutions: Vec<(u128, u128)>,
) -> UpdateClashes {
    UpdateClashes {
        tournament_id: 1000,
        clash_read_declarations: vec![],
        institution_read_declarations: vec![],
        deleted_participant_clashes: deleted,
        added_participant_clashes: added,
        deleted_institution_clashes: deleted_institutions,
        added_institution_clashes: added_institutions,
    }
}

fn inst(uuid: u128, severity: u16) -> ParticipantInstitution {
    ParticipantInstitution { uuid, clash_severity: severity }
}

#[test]
fn only_unsaved_pairs_become_clashes() {
    let saved = vec![existing(900, 1, 2)];
    let r = update(vec![(1, 2), (1, 3), (4, 5)], vec![], vec![], vec![]).get_changes(&saved, &vec![]);
    let pairs: Vec<(u128, u128)> =
        r.added_clashes.iter().map(|c| (c.declaring_participant_id, c.target_participant_id)).collect();
    assert_eq!(pairs, vec![(1, 3), (4, 5)]);
    assert!(r.added_clashes.iter().all(|c| c.clash_severity == 100));
    assert_ne!(r.added_clashes[0].uuid, r.added_clashes[1].uuid);
    assert!(r.deleted_clashes.is_empty());
}

#[test]
fn deleting_a_pair_deletes_all_its_saved_clashes() {
    let saved = vec![existing(900, 1, 2), existing(901, 1, 3), existing(902, 1, 2)];
    let r = update(vec![], vec![(1, 2), (7, 8)], vec![], vec![]).get_changes(&saved, &vec![]);
    assert_eq!(r.deleted_clashes, vec![900, 902]);
    assert!(r.added_clashes.is_empty());
}

#[test]
fn institutions_are_added_once_and_removed() {
    let participants = vec![
        ParticipantInstitutions { uuid: 1, institutions: vec![inst(50, 30), inst(51, 100)] },
        ParticipantInstitutions { uuid: 2, institutions: vec![] },
    ];
    let r = update(vec![], vec![], vec![(1, 50), (1, 52), (1, 52), (2, 60)], vec![(1, 51), (2, 99)])
        .get_changes(&vec![], &participants);
    assert_eq!(r.participants.len(), 2);
    assert_eq!(r.participants[0].uuid, 1);
    assert_eq!(r.participants[0].institutions, vec![inst(50, 30), inst(52, 100)]);
    assert_eq!(r.participants[1].institutions, vec![inst(60, 100)]);
}
