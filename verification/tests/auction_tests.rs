use std::collections::HashMap;

use open_tab::clashes::{DrawEvaluationContext, ParticipantsDebateHistory};
use open_tab::datastructures::DrawBallot;
use open_tab::evaluation::{DrawEvaluator, DrawEvaluatorConfig};
use open_tab::optimization::{auction_algorithm, find_best_ballot_assignments, Matrix};

fn empty_context() -> DrawEvaluationContext {
    DrawEvaluationContext {
        speaker_teams: HashMap::new(),
        participants_by_id: HashMap::new(),
        participant_declared_clashes: HashMap::new(),
        team_members: HashMap::new(),
        history: ParticipantsDebateHistory::new(),
    }
}

fn ballot(uuid: u128, government: u128, opposition: u128) -> DrawBallot {
    DrawBallot {
        uuid,
        government: Some(government),
        opposition: Some(opposition),
        adjudicators: vec![],
        non_aligned_speakers: vec![],
        president: None,
    }
}

#[test]
fn auction_on_a_square_matrix_holds_every_slot_once() {
    let mut m = Matrix::new(3, 3);
    let weights: [[i128; 3]; 3] = [[-400, -800, -1200], [-800, -400, -1200], [-1200, -800, -400]];
    for o in 0..3 {
        for b in 0..3 {
            m.set(o, b, weights[o][b]);
        }
    }
    let pairs = auction_algorithm(&m).unwrap();
    assert_eq!(pairs.len(), 3);
    let mut owners: Vec<usize> = pairs.iter().map(|p| p.0).collect();
    for (j, p) in pairs.iter().enumerate() {
        assert_eq!(p.1, j);
        assert!(p.0 < 3);
    }
    // the diagonal is the only assignment of the largest total weight
    assert_eq!(owners, vec![0, 1, 2]);
    owners.sort();
    assert_eq!(owners, vec![0, 1, 2]);
}

#[test]
fn auction_finds_the_heaviest_assignment_off_the_diagonal() {
    let mut m = Matrix::new(3, 3);
    let weights: [[i128; 3]; 3] = [[-1200, -400, -1600], [-400, -1200, -1600], [-1600, -1600, -400]];
    for o in 0..3 {
        for b in 0..3 {
            m.set(o, b, weights[o][b]);
        }
    }
    let pairs = auction_algorithm(&m).unwrap();
    let owners: Vec<usize> = pairs.iter().map(|p| p.0).collect();
    assert_eq!(owners, vec![1, 0, 2]);
}

#[test]
fn auction_with_fewer_options_than_slots_returns() {
    let m = Matrix::new(1, 3);
    let pairs = auction_algorithm(&m).unwrap();
    assert_eq!(pairs.len(), 3);
    assert_eq!(pairs.iter().filter(|p| p.0 == 0).count(), 1);
    assert_eq!(pairs.iter().filter(|p| p.0 == usize::MAX).count(), 2);
}

#[test]
fn best_assignment_without_issues_is_found() {
    let ctx = empty_context();
    let evaluator = DrawEvaluator::new(DrawEvaluatorConfig::default(), vec![], &ctx);
    let grid = vec![
        vec![ballot(1, 10, 20), ballot(2, 11, 20)],
        vec![ballot(1, 10, 21), ballot(2, 11, 21)],
    ];
    let out = find_best_ballot_assignments(&grid, &evaluator).unwrap();
    assert_eq!(out.len(), 2);
    assert_eq!(out[0].uuid, 1);
    assert_eq!(out[1].uuid, 2);
    let mut oppositions: Vec<u128> = out.iter().map(|b| b.opposition.unwrap()).collect();
    oppositions.sort();
    assert_eq!(oppositions, vec![20, 21]);
}
