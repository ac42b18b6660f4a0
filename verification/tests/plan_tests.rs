use std::collections::HashMap;

use open_tab::creation::{PlannedBreak, PlannedNodeType, TournamentCreationConfig};
use open_tab::plan::{assign_venues, find_relevant_ancestors, fit_round_ids, NodeExecutionError, PlanNodeKind};
use open_tab::tab_draw::{TeamAssignmentRule, TeamFoldMethod};

fn plan() -> (HashMap<u128, u128>, HashMap<u128, PlanNodeKind>) {
    // 1 (prelims) -> 2 (break) -> 3 (rounds) -> 4 (break) -> 5 (rounds)
    let mut parents = HashMap::new();
    parents.insert(2u128, 1u128);
    parents.insert(3, 2);
    parents.insert(4, 3);
    parents.insert(5, 4);
    let mut nodes = HashMap::new();
    nodes.insert(1u128, PlanNodeKind::Round { num_rounds: 3, rounds: vec![100, 101, 102] });
    nodes.insert(2, PlanNodeKind::Break { break_id: Some(200) });
    nodes.insert(3, PlanNodeKind::Round { num_rounds: 1, rounds: vec![] });
    nodes.insert(4, PlanNodeKind::Break { break_id: None });
    nodes.insert(5, PlanNodeKind::Round { num_rounds: 1, rounds: vec![] });
    (parents, nodes)
}

#[test]
fn ancestors_give_nearest_break_and_last_round() {
    let (parents, nodes) = plan();
    assert_eq!(find_relevant_ancestors(5, &parents, &nodes, 9), Ok((Some(None), Some(102))));
    assert_eq!(find_relevant_ancestors(3, &parents, &nodes, 9), Ok((Some(Some(200)), Some(102))));
    assert_eq!(find_relevant_ancestors(1, &parents, &nodes, 9), Ok((None, None)));
    assert_eq!(find_relevant_ancestors(2, &parents, &nodes, 9), Ok((None, Some(102))));
}

#[test]
fn ancestors_outside_the_tournament_are_an_error() {
    let (mut parents, nodes) = plan();
    parents.insert(1, 77);
    assert_eq!(
        find_relevant_ancestors(2, &parents, &nodes, 9),
        Err(NodeExecutionError::RoundIsNotInTournament { tournament_id: 9 })
    );
}

#[test]
fn round_ids_are_kept_cut_or_extended() {
    let (ids, deleted) = fit_round_ids(&vec![1, 2, 3], 2);
    assert_eq!(ids, vec![1, 2]);
    assert_eq!(deleted, vec![3]);
    let (ids, deleted) = fit_round_ids(&vec![1], 3);
    assert_eq!(ids.len(), 3);
    assert_eq!(ids[0], 1);
    assert_ne!(ids[1], ids[2]);
    assert!(deleted.is_empty());
}

#[test]
fn venues_fill_free_debates_when_enough() {
    let debates = vec![Some(5u128), None, None];
    assert_eq!(assign_venues(&debates, &vec![5, 6, 7, 8]), vec![Some(5), Some(6), Some(7)]);
    assert_eq!(assign_venues(&debates, &vec![5, 6]), vec![Some(5), None, None]);
    assert_eq!(assign_venues(&vec![None], &vec![]), vec![None]);
}

fn config(num_preliminaries: u32, num_break_rounds: u32) -> TournamentCreationConfig {
    TournamentCreationConfig {
        name: "Test".to_string(),
        num_preliminaries,
        num_break_rounds,
        use_default_feedback_system: false,
    }
}

#[test]
fn graph_with_whole_roundtrips() {
    let (nodes, edges) = config(6, 2).get_tournament_graph(11);
    assert_eq!(nodes.len(), 5);
    assert_eq!(edges.len(), 4);
    assert!(nodes.iter().all(|n| n.tournament_id == 11));
    match nodes[0].node_type {
        PlannedNodeType::Preliminaries { num_roundtrips } => assert_eq!(num_roundtrips, 2),
        _ => panic!("the first node holds the preliminaries"),
    }
    match nodes[1].node_type {
        PlannedNodeType::Break { config } => assert_eq!(config, PlannedBreak::TabBreak { num_debates: 2 }),
        _ => panic!("a break follows the preliminaries"),
    }
    match nodes[3].node_type {
        PlannedNodeType::Break { config } => assert_eq!(config, PlannedBreak::KnockoutBreak),
        _ => panic!("a knockout break follows"),
    }
    assert_eq!(edges[0].source_id, nodes[0].uuid);
    assert_eq!(edges[0].target_id, nodes[1].uuid);
    assert_eq!(edges[3].source_id, nodes[3].uuid);
    assert_eq!(edges[3].target_id, nodes[4].uuid);
}

#[test]
fn graph_with_two_extra_preliminaries() {
    let (nodes, edges) = config(5, 1).get_tournament_graph(1);
    assert_eq!(nodes.len(), 7);
    assert_eq!(edges.len(), 6);
    match &nodes[2].node_type {
        PlannedNodeType::FoldDraw { round_configs } => {
            assert_eq!(round_configs[0].team_fold_method, TeamFoldMethod::HalfRandom)
        },
        _ => panic!("a half random round follows the minor break"),
    }
    match &nodes[3].node_type {
        PlannedNodeType::FoldDraw { round_configs } => {
            assert_eq!(round_configs[0].team_fold_method, TeamFoldMethod::BalancedPowerPaired);
            assert_eq!(round_configs[0].team_assignment_rule, TeamAssignmentRule::InvertPrevious);
        },
        _ => panic!("a balanced round follows the Tim break"),
    }
    assert_eq!((edges[2].source_id, edges[2].target_id), (nodes[2].uuid, nodes[4].uuid));
    assert_eq!((edges[3].source_id, edges[3].target_id), (nodes[4].uuid, nodes[3].uuid));
    assert_eq!((edges[4].source_id, edges[4].target_id), (nodes[3].uuid, nodes[5].uuid));
}

#[test]
fn graph_with_one_extra_preliminary() {
    let (nodes, edges) = config(4, 0).get_tournament_graph(1);
    assert_eq!(nodes.len(), 3);
    assert_eq!(edges.len(), 2);
    match nodes[1].node_type {
        PlannedNodeType::Break { config } => assert_eq!(config, PlannedBreak::TwoThirdsBreak),
        _ => panic!("a two thirds break follows the preliminaries"),
    }
}
