use open_tab::creation::{PlannedBreak, PlannedEdge, PlannedNode, PlannedNodeType};
use open_tab::edit_tree::{EditTreeAction, EditTreeActionError, EditTreeActionType, PlanNodeConfig, RoundGroupConfig};
use open_tab::tab_draw::{FoldDrawConfig, NonAlignedFoldMethod, TeamAssignmentRule, TeamFoldMethod};

const TOURNAMENT: u128 = 900;

fn ko_fold() -> FoldDrawConfig {
    FoldDrawConfig {
        team_fold_method: TeamFoldMethod::InversePowerPaired,
        non_aligned_fold_method: NonAlignedFoldMethod::Random,
        team_assignment_rule: TeamAssignmentRule::Random,
    }
}

fn edge(source_id: u128, target_id: u128) -> PlannedEdge {
    PlannedEdge { source_id, target_id }
}

fn prelims(uuid: u128) -> PlannedNode {
    PlannedNode { uuid, tournament_id: TOURNAMENT, node_type: PlannedNodeType::Preliminaries { num_roundtrips: 2 } }
}

fn brk(uuid: u128) -> PlannedNode {
    PlannedNode { uuid, tournament_id: TOURNAMENT, node_type: PlannedNodeType::Break { config: PlannedBreak::TimBreak } }
}

fn apply(
    action: EditTreeActionType,
    nodes: &mut Vec<PlannedNode>,
    edges: &mut Vec<PlannedEdge>,
) -> Result<open_tab::edit_tree::PlanChanges, EditTreeActionError> {
    EditTreeAction { tournament_id: TOURNAMENT, action }.get_changes(ko_fold(), nodes, edges)
}

#[test]
fn preliminaries_without_parent_stand_alone() {
    let mut nodes = vec![prelims(1)];
    let mut edges = vec![];
    let ch = apply(EditTreeActionType::AddPreliminaryRounds { parent: None }, &mut nodes, &mut edges).unwrap();
    assert_eq!(ch.nodes.len(), 1);
    assert!(matches!(ch.nodes[0].node_type, PlannedNodeType::Preliminaries { num_roundtrips: 1 }));
    assert_eq!(ch.nodes[0].tournament_id, TOURNAMENT);
    assert!(ch.edges.is_empty());
    assert!(ch.deleted_edges.is_empty());
    assert_eq!(nodes.len(), 2);
    assert_eq!(nodes[1].uuid, ch.nodes[0].uuid);
    assert!(edges.is_empty());
}

#[test]
fn preliminaries_take_over_the_first_edge_of_the_parent() {
    let mut nodes = vec![prelims(1), brk(2), brk(3)];
    let mut edges = vec![edge(1, 2), edge(1, 3)];
    let ch = apply(EditTreeActionType::AddPreliminaryRounds { parent: Some(1) }, &mut nodes, &mut edges).unwrap();
    let new_id = ch.nodes[0].uuid;
    assert_eq!(ch.deleted_edges, vec![edge(1, 2)]);
    assert_eq!(ch.edges, vec![edge(new_id, 2), edge(1, new_id)]);
    assert_eq!(edges, vec![edge(1, 3), edge(new_id, 2), edge(1, new_id)]);
    assert_eq!(nodes.len(), 4);
}

#[test]
fn preliminaries_below_a_leaf_get_one_edge() {
    let mut nodes = vec![prelims(1)];
    let mut edges = vec![edge(5, 6)];
    let ch = apply(EditTreeActionType::AddPreliminaryRounds { parent: Some(1) }, &mut nodes, &mut edges).unwrap();
    let new_id = ch.nodes[0].uuid;
    assert!(ch.deleted_edges.is_empty());
    assert_eq!(edges, vec![edge(5, 6), edge(1, new_id)]);
}

#[test]
fn a_minor_break_leaves_its_round_out() {
    let mut nodes = vec![prelims(1)];
    let mut edges = vec![];
    let draws = vec![ko_fold(), ko_fold()];
    let ch = apply(EditTreeActionType::AddMinorBreakRounds { parent: 1, draws }, &mut nodes, &mut edges).unwrap();
    assert_eq!(ch.nodes.len(), 1);
    assert!(matches!(ch.nodes[0].node_type, PlannedNodeType::Break { config: PlannedBreak::TwoThirdsBreak }));
    let b = ch.nodes[0].uuid;
    assert_eq!(ch.edges.len(), 2);
    assert_eq!(ch.edges[0], edge(1, b));
    assert_eq!(ch.edges[1].source_id, b);
    let round_id = ch.edges[1].target_id;
    assert!(nodes.iter().all(|n| n.uuid != round_id));
    assert_eq!(nodes.len(), 2);
}

#[test]
fn a_tim_break_adds_two_breaks_with_a_round_each() {
    let mut nodes = vec![prelims(1)];
    let mut edges = vec![];
    let ch = apply(EditTreeActionType::AddTimBreakRounds { parent: 1 }, &mut nodes, &mut edges).unwrap();
    assert_eq!(ch.nodes.len(), 4);
    assert!(matches!(ch.nodes[0].node_type, PlannedNodeType::Break { config: PlannedBreak::TwoThirdsBreak }));
    match &ch.nodes[1].node_type {
        PlannedNodeType::FoldDraw { round_configs } => assert_eq!(
            round_configs,
            &vec![FoldDrawConfig {
                team_fold_method: TeamFoldMethod::Random,
                non_aligned_fold_method: NonAlignedFoldMethod::Random,
                team_assignment_rule: TeamAssignmentRule::Random,
            }]
        ),
        _ => panic!("expected a fold draw"),
    }
    assert!(matches!(ch.nodes[2].node_type, PlannedNodeType::Break { config: PlannedBreak::TimBreak }));
    match &ch.nodes[3].node_type {
        PlannedNodeType::FoldDraw { round_configs } => {
            assert_eq!(round_configs.len(), 1);
            assert_eq!(round_configs[0].team_fold_method, TeamFoldMethod::PowerPaired);
        },
        _ => panic!("expected a fold draw"),
    }
    let ids: Vec<u128> = ch.nodes.iter().map(|n| n.uuid).collect();
    assert_eq!(ch.edges, vec![edge(1, ids[0]), edge(ids[0], ids[1]), edge(ids[1], ids[2]), edge(ids[2], ids[3])]);
    assert_eq!(edges, ch.edges);
    assert_eq!(nodes.len(), 5);
}

#[test]
fn a_knockout_stage_halves_the_debates() {
    let mut nodes = vec![prelims(1)];
    let mut edges = vec![];
    let ch = apply(EditTreeActionType::AddKOStage { parent: 1, num_stages: 3 }, &mut nodes, &mut edges).unwrap();
    assert_eq!(ch.nodes.len(), 6);
    assert!(matches!(ch.nodes[0].node_type, PlannedNodeType::Break { config: PlannedBreak::TabBreak { num_debates: 4 } }));
    assert!(matches!(ch.nodes[2].node_type, PlannedNodeType::Break { config: PlannedBreak::KnockoutBreak }));
    assert!(matches!(ch.nodes[4].node_type, PlannedNodeType::Break { config: PlannedBreak::KnockoutBreak }));
    for i in [1, 3, 5] {
        match &ch.nodes[i].node_type {
            PlannedNodeType::FoldDraw { round_configs } => assert_eq!(round_configs, &vec![ko_fold()]),
            _ => panic!("expected a fold draw"),
        }
    }
    let ids: Vec<u128> = ch.nodes.iter().map(|n| n.uuid).collect();
    let mut expected = vec![edge(1, ids[0])];
    for i in 1..6 {
        expected.push(edge(ids[i - 1], ids[i]));
    }
    assert_eq!(ch.edges, expected);
    assert_eq!(nodes.len(), 7);
}

#[test]
fn a_single_knockout_stage_breaks_two_teams() {
    let mut nodes = vec![];
    let mut edges = vec![];
    let ch = apply(EditTreeActionType::AddKOStage { parent: 1, num_stages: 1 }, &mut nodes, &mut edges).unwrap();
    assert_eq!(ch.nodes.len(), 2);
    assert!(matches!(ch.nodes[0].node_type, PlannedNodeType::Break { config: PlannedBreak::TabBreak { num_debates: 1 } }));
}

#[test]
fn an_update_replaces_the_configuration_in_place_and_at_the_end() {
    let mut nodes = vec![brk(1), prelims(2)];
    let mut edges = vec![edge(1, 2)];
    let config = PlanNodeConfig::RoundGroup { config: RoundGroupConfig::FoldDraw { round_configs: vec![ko_fold()] } };
    let ch = apply(EditTreeActionType::UpdateNode { node: 2, config }, &mut nodes, &mut edges).unwrap();
    assert_eq!(ch.nodes.len(), 1);
    assert_eq!(ch.nodes[0].uuid, 2);
    assert_eq!(nodes.len(), 3);
    for i in [1, 2] {
        assert_eq!(nodes[i].uuid, 2);
        match &nodes[i].node_type {
            PlannedNodeType::FoldDraw { round_configs } => assert_eq!(round_configs, &vec![ko_fold()]),
            _ => panic!("expected a fold draw"),
        }
    }
    assert_eq!(edges, vec![edge(1, 2)]);
}

#[test]
fn a_break_takes_a_new_break_configuration() {
    let mut nodes = vec![brk(1)];
    let mut edges = vec![];
    let config = PlanNodeConfig::Break { config: PlannedBreak::KnockoutBreak };
    let ch = apply(EditTreeActionType::UpdateNode { node: 1, config }, &mut nodes, &mut edges).unwrap();
    assert!(matches!(ch.nodes[0].node_type, PlannedNodeType::Break { config: PlannedBreak::KnockoutBreak }));
    assert!(matches!(nodes[0].node_type, PlannedNodeType::Break { config: PlannedBreak::KnockoutBreak }));
}

#[test]
fn an_update_of_another_kind_is_refused() {
    let mut nodes = vec![brk(1), prelims(2)];
    let mut edges = vec![edge(1, 2)];
    let config = PlanNodeConfig::Break { config: PlannedBreak::KnockoutBreak };
    let r = apply(EditTreeActionType::UpdateNode { node: 2, config }, &mut nodes, &mut edges);
    assert!(matches!(r, Err(EditTreeActionError::InvalidNodeType)));
    assert_eq!(nodes.len(), 2);
    assert!(matches!(nodes[1].node_type, PlannedNodeType::Preliminaries { num_roundtrips: 2 }));
    let config = PlanNodeConfig::RoundGroup { config: RoundGroupConfig::Preliminaries { num_roundtrips: 1 } };
    let r = apply(EditTreeActionType::UpdateNode { node: 1, config }, &mut nodes, &mut edges);
    assert!(matches!(r, Err(EditTreeActionError::InvalidNodeType)));
    assert_eq!(EditTreeActionError::InvalidNodeType.message(), "Invalid node type for update");
}
