use open_tab::datastructures::{Ballot, DebateInfo, DrawBallot, RoundInfo, Speech, SpeechRole};

fn debate(chair: Option<u128>, wings: Vec<u128>, non_aligned: Vec<u128>) -> DebateInfo {
    DebateInfo {
        id: 9,
        government: Some(10),
        opposition: Some(11),
        chair,
        wings,
        president: Some(12),
        non_aligned_speakers: non_aligned,
    }
}

#[test]
fn a_debate_becomes_a_ballot_with_empty_team_speeches() {
    let b = debate(Some(1), vec![2, 3], vec![20, 21]).into_ballot();
    assert_eq!(b.uuid, 9);
    assert_eq!(b.government, Some(10));
    assert_eq!(b.opposition, Some(11));
    assert_eq!(b.president, Some(12));
    assert_eq!(b.adjudicators, vec![1, 2, 3]);
    assert_eq!(b.speeches.len(), 8);
    for (i, s) in b.speeches.iter().take(3).enumerate() {
        assert_eq!((s.speaker, s.role, s.position), (None, SpeechRole::Government, i as u8));
    }
    for (i, s) in b.speeches.iter().skip(3).take(3).enumerate() {
        assert_eq!((s.speaker, s.role, s.position), (None, SpeechRole::Opposition, i as u8));
    }
    assert_eq!((b.speeches[6].speaker, b.speeches[6].role, b.speeches[6].position), (Some(20), SpeechRole::NonAligned, 0));
    assert_eq!((b.speeches[7].speaker, b.speeches[7].role, b.speeches[7].position), (Some(21), SpeechRole::NonAligned, 1));
}

#[test]
fn a_debate_with_a_chair_survives_the_round_trip() {
    let back = DebateInfo::from_ballot(&debate(Some(1), vec![2, 3], vec![20, 21]).into_ballot());
    assert_eq!(back.chair, Some(1));
    assert_eq!(back.wings, vec![2, 3]);
    assert_eq!(back.non_aligned_speakers, vec![20, 21]);
    assert_eq!((back.id, back.government, back.opposition, back.president), (9, Some(10), Some(11), Some(12)));
}

#[test]
fn a_debate_without_a_chair_reads_back_its_first_wing_as_chair() {
    let back = DebateInfo::from_ballot(&debate(None, vec![5, 6], vec![]).into_ballot());
    assert_eq!(back.chair, Some(5));
    assert_eq!(back.wings, vec![6]);
}

#[test]
fn rounds_are_read_from_ballots_and_draw_ballots() {
    let ballot = Ballot {
        uuid: 4,
        government: Some(10),
        opposition: None,
        speeches: vec![
            Speech { speaker: Some(20), role: SpeechRole::NonAligned, position: 0 },
            Speech { speaker: Some(30), role: SpeechRole::Government, position: 0 },
            Speech { speaker: None, role: SpeechRole::NonAligned, position: 1 },
        ],
        adjudicators: vec![1, 2],
        president: Some(5),
    };
    let r = RoundInfo::from_ballots(70, true, &vec![ballot]);
    assert_eq!((r.id, r.is_silent, r.debates.len()), (70, true, 1));
    let d = &r.debates[0];
    assert_eq!((d.id, d.government, d.opposition, d.chair, d.president), (4, Some(10), None, Some(1), Some(5)));
    assert_eq!(d.wings, vec![2]);
    assert_eq!(d.non_aligned_speakers, vec![20]);

    let draw = DrawBallot {
        uuid: 6,
        government: Some(10),
        opposition: Some(11),
        adjudicators: vec![],
        non_aligned_speakers: vec![None, Some(21)],
        president: None,
    };
    let r = RoundInfo::from_draw_ballots(71, false, &vec![draw]);
    assert_eq!((r.id, r.is_silent), (71, false));
    assert_eq!((r.debates[0].id, r.debates[0].chair), (6, None));
    assert!(r.debates[0].wings.is_empty());
    assert_eq!(r.debates[0].non_aligned_speakers, vec![21]);
}
