use std::collections::HashMap;

use open_tab::clashes::{DrawEvaluationContext, ParticipantsDebateHistory};
use open_tab::datastructures::{AdjudicatorInfo, Ballot, DebateInfo, DrawBallot, RoundInfo};
use open_tab::round_loading::{BallotRound, DrawBallotRound};
use open_tab::evaluation::{DrawEvaluator, DrawEvaluatorConfig};
use open_tab::flow_optimization::{AdjudicatorPosition, OptimizationOptions, OptimizationState};
use open_tab::participants::{Participant, ParticipantRole};

fn context(adjudicators: &[u128]) -> DrawEvaluationContext {
    DrawEvaluationContext {
        speaker_teams: HashMap::new(),
        participants_by_id: adjudicators
            .iter()
            .map(|&u| {
                (u, Participant { uuid: u, role: ParticipantRole::Adjudicator, break_category_id: None, institutions: vec![] })
            })
            .collect(),
        participant_declared_clashes: HashMap::new(),
        team_members: HashMap::new(),
        history: ParticipantsDebateHistory::new(),
    }
}

fn info(id: u128, chair: i32, panel: i32) -> AdjudicatorInfo {
    AdjudicatorInfo { id, feedback_skill: chair, moderation_skill: chair, discussion_skill: panel }
}

fn debate(id: u128, chair: Option<u128>, wings: Vec<u128>) -> DebateInfo {
    DebateInfo {
        id,
        government: None,
        opposition: None,
        chair,
        wings,
        president: None,
        non_aligned_speakers: vec![],
    }
}

#[test]
fn loading_reads_positions_and_unavailability() {
    let ctx = context(&[1, 2, 3, 4]);
    let evaluator = DrawEvaluator::new(DrawEvaluatorConfig::default(), vec![], &ctx);
    let rounds = vec![
        RoundInfo { id: 70, debates: vec![debate(500, Some(1), vec![2]), debate(501, None, vec![])], is_silent: false },
        RoundInfo { id: 71, debates: vec![debate(502, None, vec![1, 3])], is_silent: true },
    ];
    let adjudicators = vec![info(1, 5, 5), info(2, 5, 5), info(3, 5, 5), info(4, 5, 5)];
    let unavailable = vec![vec![], vec![71], vec![70, 99], vec![]];
    let state =
        OptimizationState::load_from_rounds(rounds, adjudicators, unavailable, OptimizationOptions::default(), &evaluator);
    assert_eq!(state.assignments[0], vec![AdjudicatorPosition::Chair { debate_idx: 0 }, AdjudicatorPosition::Wing { debate_idx: 0, position: 0 }]);
    assert_eq!(state.assignments[1], vec![AdjudicatorPosition::Wing { debate_idx: 0, position: 0 }, AdjudicatorPosition::Unavailable]);
    assert_eq!(state.assignments[2], vec![AdjudicatorPosition::Unavailable, AdjudicatorPosition::Wing { debate_idx: 0, position: 1 }]);
    assert_eq!(state.assignments[3], vec![AdjudicatorPosition::Unassigned, AdjudicatorPosition::Unassigned]);
    assert_eq!(state.options.hard_clash_threshold, 75);
}

#[test]
fn chairs_go_to_debates_without_one() {
    let ctx = context(&[1, 2]);
    let evaluator = DrawEvaluator::new(DrawEvaluatorConfig::default(), vec![], &ctx);
    let rounds = vec![RoundInfo { id: 70, debates: vec![debate(500, None, vec![]), debate(501, None, vec![])], is_silent: false }];
    let adjudicators = vec![info(1, 50, 10), info(2, 40, 10)];
    let mut state =
        OptimizationState::load_from_rounds(rounds, adjudicators, vec![vec![], vec![]], OptimizationOptions::default(), &evaluator);
    state.update_state_by_assigning_chairs();
    let mut chairs: Vec<u128> = state.rounds[0].debates.iter().map(|d| d.chair.unwrap()).collect();
    chairs.sort();
    assert_eq!(chairs, vec![1, 2]);
    for (k, adj) in [1u128, 2].iter().enumerate() {
        let d = state.rounds[0].debates.iter().position(|x| x.chair == Some(*adj)).unwrap();
        assert_eq!(state.assignments[k][0], AdjudicatorPosition::Chair { debate_idx: d });
    }
}

#[test]
fn an_unavailable_adjudicator_chairs_nothing() {
    let ctx = context(&[1, 2]);
    let evaluator = DrawEvaluator::new(DrawEvaluatorConfig::default(), vec![], &ctx);
    let rounds = vec![RoundInfo { id: 70, debates: vec![debate(500, None, vec![])], is_silent: false }];
    let adjudicators = vec![info(1, 90, 10), info(2, 10, 10)];
    let mut state = OptimizationState::load_from_rounds(
        rounds,
        adjudicators,
        vec![vec![70], vec![]],
        OptimizationOptions::default(),
        &evaluator,
    );
    state.update_state_by_assigning_chairs();
    assert_eq!(state.rounds[0].debates[0].chair, Some(2));
    assert_eq!(state.assignments[0][0], AdjudicatorPosition::Unavailable);
}

#[test]
fn wings_are_added_pass_by_pass() {
    let ctx = context(&[1, 2, 3]);
    let evaluator = DrawEvaluator::new(DrawEvaluatorConfig::default(), vec![], &ctx);
    let rounds = vec![RoundInfo { id: 70, debates: vec![debate(500, Some(1), vec![])], is_silent: false }];
    let adjudicators = vec![info(1, 50, 10), info(2, 40, 10), info(3, 30, 10)];
    let mut state = OptimizationState::load_from_rounds(
        rounds,
        adjudicators,
        vec![vec![], vec![], vec![]],
        OptimizationOptions::default(),
        &evaluator,
    );
    state.update_state_by_assigning_wings();
    let mut wings = state.rounds[0].debates[0].wings.clone();
    let first = wings[0];
    wings.sort();
    assert_eq!(wings, vec![2, 3]);
    let k = if first == 2 { 1 } else { 2 };
    assert_eq!(state.assignments[k][0], AdjudicatorPosition::Wing { debate_idx: 0, position: 0 });
    assert_eq!(state.assignments[0][0], AdjudicatorPosition::Chair { debate_idx: 0 });
}

#[test]
fn a_full_allocation_fills_every_debate() {
    let ctx = context(&[1, 2, 3, 4]);
    let evaluator = DrawEvaluator::new(DrawEvaluatorConfig::default(), vec![], &ctx);
    let rounds = vec![RoundInfo { id: 70, debates: vec![debate(500, None, vec![]), debate(501, None, vec![])], is_silent: false }];
    let adjudicators = vec![info(1, 90, 10), info(2, 80, 10), info(3, 10, 10), info(4, 5, 10)];
    let mut state = OptimizationState::load_from_rounds(
        rounds,
        adjudicators,
        vec![vec![], vec![], vec![], vec![]],
        OptimizationOptions::default(),
        &evaluator,
    );
    state.update_state_by_assigning_adjudicators();
    let mut seen: Vec<u128> = vec![];
    for d in state.rounds[0].debates.iter() {
        assert!(d.chair.is_some());
        assert_eq!(d.wings.len(), 1);
        seen.push(d.chair.unwrap());
        seen.extend(d.wings.iter().cloned());
    }
    seen.sort();
    assert_eq!(seen, vec![1, 2, 3, 4]);
    assert!(state.assignments.iter().all(|row| row[0] != AdjudicatorPosition::Unassigned));
}

#[test]
fn rounds_load_from_ballots_and_draw_ballots_alike() {
    let ctx = context(&[1, 2, 3]);
    let evaluator = DrawEvaluator::new(DrawEvaluatorConfig::default(), vec![], &ctx);
    let adjudicators = vec![info(1, 5, 5), info(2, 5, 5), info(3, 5, 5)];
    let ballot = Ballot { uuid: 500, government: None, opposition: None, speeches: vec![], adjudicators: vec![2, 1], president: None };
    let state = OptimizationState::load_from_rounds_and_ballots(
        &vec![BallotRound { id: 70, is_silent: false, ballots: vec![ballot] }],
        adjudicators.clone(),
        vec![vec![], vec![], vec![70]],
        OptimizationOptions::default(),
        &evaluator,
    );
    assert_eq!(state.rounds.len(), 1);
    assert_eq!(state.rounds[0].debates[0].chair, Some(2));
    assert_eq!(state.assignments[0], vec![AdjudicatorPosition::Wing { debate_idx: 0, position: 0 }]);
    assert_eq!(state.assignments[1], vec![AdjudicatorPosition::Chair { debate_idx: 0 }]);
    assert_eq!(state.assignments[2], vec![AdjudicatorPosition::Unavailable]);

    let draw = DrawBallot { uuid: 501, government: None, opposition: None, adjudicators: vec![3], non_aligned_speakers: vec![], president: None };
    let state = OptimizationState::load_from_rounds_and_draw_ballots(
        &vec![DrawBallotRound { id: 71, is_silent: true, ballots: vec![draw] }],
        adjudicators,
        vec![vec![], vec![], vec![]],
        OptimizationOptions::default(),
        &evaluator,
    );
    assert!(state.rounds[0].is_silent);
    assert_eq!(state.assignments[2], vec![AdjudicatorPosition::Chair { debate_idx: 0 }]);
    assert_eq!(state.assignments[0], vec![AdjudicatorPosition::Unassigned]);
}
