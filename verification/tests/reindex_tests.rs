use open_tab::creation::PlannedEdge;
use open_tab::plan::PlanNodeKind;
use open_tab::reindex::{reindex_rounds, PlanNode, RoundIndex};

fn round_node(uuid: u128, num_rounds: u64, rounds: Vec<u128>) -> PlanNode {
    PlanNode { uuid, kind: PlanNodeKind::Round { num_rounds, rounds } }
}

fn break_node(uuid: u128) -> PlanNode {
    PlanNode { uuid, kind: PlanNodeKind::Break { break_id: None } }
}

fn ri(uuid: u128, index: u64) -> RoundIndex {
    RoundIndex { uuid, index }
}

#[test]
fn later_groups_start_after_the_configured_rounds() {
    // prelims with three configured rounds, a break, then a group of two
    let nodes = vec![round_node(1, 3, vec![10, 11, 12]), break_node(2), round_node(3, 2, vec![20])];
    let edges = vec![PlannedEdge { source_id: 1, target_id: 2 }, PlannedEdge { source_id: 2, target_id: 3 }];
    let rounds = vec![ri(10, 0), ri(11, 0), ri(12, 0), ri(20, 0)];
    // rounds whose index equals the group's start are left as they are
    assert_eq!(reindex_rounds(&nodes, &edges, &rounds), vec![ri(20, 3)]);
}

#[test]
fn every_round_off_its_start_is_renumbered() {
    let nodes = vec![round_node(1, 3, vec![10, 11, 12]), break_node(2), round_node(3, 2, vec![20, 21])];
    let edges = vec![PlannedEdge { source_id: 1, target_id: 2 }, PlannedEdge { source_id: 2, target_id: 3 }];
    let rounds = vec![ri(10, 7), ri(11, 7), ri(12, 7), ri(20, 7), ri(21, 7)];
    assert_eq!(
        reindex_rounds(&nodes, &edges, &rounds),
        vec![ri(10, 0), ri(11, 1), ri(12, 2), ri(20, 3), ri(21, 4)]
    );
}

#[test]
fn the_last_root_is_walked_first() {
    let nodes = vec![round_node(1, 1, vec![30]), round_node(2, 2, vec![40, 41])];
    let rounds = vec![ri(30, 9), ri(40, 9), ri(41, 9)];
    assert_eq!(reindex_rounds(&nodes, &vec![], &rounds), vec![ri(40, 0), ri(41, 1), ri(30, 2)]);
}

#[test]
fn more_rounds_than_configured_take_more_positions() {
    let nodes = vec![round_node(1, 1, vec![10, 11]), round_node(2, 1, vec![20])];
    let edges = vec![PlannedEdge { source_id: 1, target_id: 2 }];
    let rounds = vec![ri(10, 5), ri(11, 5), ri(20, 5)];
    assert_eq!(reindex_rounds(&nodes, &edges, &rounds), vec![ri(10, 0), ri(11, 1), ri(20, 2)]);
}

#[test]
fn a_node_reached_twice_is_numbered_once() {
    // 1 -> 2, 1 -> 3, 2 -> 3
    let nodes = vec![round_node(1, 1, vec![10]), round_node(2, 1, vec![20]), round_node(3, 1, vec![30])];
    let edges = vec![
        PlannedEdge { source_id: 1, target_id: 2 },
        PlannedEdge { source_id: 1, target_id: 3 },
        PlannedEdge { source_id: 2, target_id: 3 },
    ];
    let rounds = vec![ri(10, 9), ri(20, 9), ri(30, 9)];
    // children are pushed in edge order, so 3 is visited before 2
    assert_eq!(reindex_rounds(&nodes, &edges, &rounds), vec![ri(10, 0), ri(30, 1), ri(20, 2)]);
}

#[test]
fn an_empty_plan_changes_nothing() {
    assert_eq!(reindex_rounds(&vec![], &vec![], &vec![]), vec![]);
}
