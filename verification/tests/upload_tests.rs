use open_tab::participants::ParticipantRole;
use open_tab::upload::{get_participants, upload_participants, ParticipantData, TeamData};

fn data(name: &str, institutions: &[&str], clashes: &[&str]) -> ParticipantData {
    ParticipantData {
        name: name.to_string(),
        institutions: institutions.iter().map(|s| s.to_string()).collect(),
        clashes: clashes.iter().map(|s| s.to_string()).collect(),
    }
}

#[test]
fn a_new_institution_is_created_once_and_shared() {
    let existing_institutions = vec![("Uni B".to_string(), 7u128)];
    let listed = vec![
        (data("Ann", &["Uni A", "Uni B"], &[]), ParticipantRole::Adjudicator, 1u128),
        (data("Bob", &["Uni A"], &[]), ParticipantRole::Adjudicator, 2u128),
        (data("Cid", &["Uni C", "Uni A"], &[]), ParticipantRole::Adjudicator, 3u128),
    ];
    let (institutions, participants, clashes) = get_participants(40, &listed, &existing_institutions, &vec![]);
    let names: Vec<&str> = institutions.iter().map(|i| i.name.as_str()).collect();
    assert_eq!(names, vec!["Uni A", "Uni C"]);
    assert!(institutions.iter().all(|i| i.tournament_id == 40));
    let uni_a = institutions[0].uuid;
    let uni_c = institutions[1].uuid;
    assert_eq!(participants.len(), 3);
    let ids = |k: usize| participants[k].institutions.iter().map(|i| i.uuid).collect::<Vec<u128>>();
    assert_eq!(ids(0), vec![uni_a, 7]);
    assert_eq!(ids(1), vec![uni_a]);
    assert_eq!(ids(2), vec![uni_c, uni_a]);
    assert!(participants.iter().all(|p| p.institutions.iter().all(|i| i.clash_severity == 100)));
    assert_eq!(participants[1].uuid, 2);
    assert_eq!(participants[1].name, "Bob");
    assert!(participants.iter().all(|p| p.registration_key.len() == 32 && p.tournament_id == 40));
    assert!(clashes.is_empty());
}

#[test]
fn clashes_name_existing_and_listed_participants() {
    let existing_participants = vec![("Dee".to_string(), 50u128), ("Ann".to_string(), 51u128)];
    let listed = vec![
        (data("Ann", &[], &["Dee", "Nobody", "Bob"]), ParticipantRole::Speaker { team_id: Some(9) }, 1u128),
        (data("Bob", &[], &["Ann"]), ParticipantRole::Adjudicator, 2u128),
    ];
    let (_, participants, clashes) = get_participants(40, &listed, &vec![], &existing_participants);
    assert_eq!(participants[0].role, ParticipantRole::Speaker { team_id: Some(9) });
    let pairs: Vec<(u128, u128)> =
        clashes.iter().map(|c| (c.declaring_participant_id, c.target_participant_id)).collect();
    // a listed participant takes over the name of an existing one
    assert_eq!(pairs, vec![(1, 50), (1, 2), (2, 1)]);
    assert!(clashes.iter().all(|c| c.clash_severity == 100));
}

#[test]
fn an_upload_keeps_existing_teams_and_lists_members_first() {
    let teams = vec![
        TeamData { name: "Red".to_string(), members: vec![data("Ann", &[], &[]), data("Bob", &[], &[])] },
        TeamData { name: "Blue".to_string(), members: vec![data("Cid", &[], &["Ann"])] },
    ];
    let adjudicators = vec![data("Dee", &["Uni D"], &[])];
    let existing_teams = vec![("Blue".to_string(), 77u128)];
    let r = upload_participants(40, &teams, &adjudicators, &existing_teams, &vec![], &vec![]);
    assert_eq!(r.teams.len(), 2);
    assert_eq!(r.teams[0].name, "Red");
    assert_eq!(r.teams[1].uuid, 77);
    assert!(r.teams.iter().all(|t| t.tournament_id == 40));
    let red = r.teams[0].uuid;
    let names: Vec<&str> = r.participants.iter().map(|p| p.name.as_str()).collect();
    assert_eq!(names, vec!["Ann", "Bob", "Cid", "Dee"]);
    assert_eq!(r.participants[0].role, ParticipantRole::Speaker { team_id: Some(red) });
    assert_eq!(r.participants[1].role, ParticipantRole::Speaker { team_id: Some(red) });
    assert_eq!(r.participants[2].role, ParticipantRole::Speaker { team_id: Some(77) });
    assert_eq!(r.participants[3].role, ParticipantRole::Adjudicator);
    assert_eq!(r.institutions.len(), 1);
    assert_eq!(r.participants[3].institutions[0].uuid, r.institutions[0].uuid);
    assert_eq!(r.clashes.len(), 1);
    assert_eq!(r.clashes[0].declaring_participant_id, r.participants[2].uuid);
    assert_eq!(r.clashes[0].target_participant_id, r.participants[0].uuid);
}

#[test]
fn an_empty_upload_saves_nothing() {
    let r = upload_participants(40, &vec![], &vec![], &vec![], &vec![], &vec![]);
    assert!(r.teams.is_empty() && r.institutions.is_empty() && r.participants.is_empty() && r.clashes.is_empty());
}
