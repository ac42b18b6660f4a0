use std::collections::HashMap;

use open_tab::clashes::ClashType;
use open_tab::datastructures::DrawBallot;
use open_tab::evaluation::BallotEvaluationResult;
use open_tab::flat_evaluation::flatten_for_target;
use open_tab::issues::{DrawIssue, DrawIssueTarget};

fn issue(severity: u16, target: DrawIssueTarget) -> DrawIssue {
    DrawIssue { issue_type: ClashType::SameTeamClash, severity, target }
}

fn severities(issues: &[DrawIssue]) -> Vec<u16> {
    issues.iter().map(|i| i.severity).collect()
}

#[test]
fn only_the_issues_about_the_target_are_kept_per_holder() {
    let mut non_aligned = HashMap::new();
    non_aligned.insert(20u128, vec![issue(1, DrawIssueTarget::Speaker { uuid: 9 }), issue(2, DrawIssueTarget::Speaker { uuid: 8 })]);
    let mut adjudicators = HashMap::new();
    adjudicators.insert(7u128, vec![issue(3, DrawIssueTarget::Team { uuid: 9, involved_speakers: vec![1] })]);
    adjudicators.insert(6u128, vec![issue(4, DrawIssueTarget::Adjudicator { uuid: 5 })]);
    let result = BallotEvaluationResult {
        government_issues: vec![
            issue(10, DrawIssueTarget::Adjudicator { uuid: 9 }),
            issue(11, DrawIssueTarget::Adjudicator { uuid: 7 }),
            issue(12, DrawIssueTarget::Speaker { uuid: 9 }),
        ],
        opposition_issues: vec![issue(13, DrawIssueTarget::Speaker { uuid: 20 })],
        non_aligned_issues: non_aligned,
        adjudicator_issues: adjudicators,
    };
    let ballot = DrawBallot {
        uuid: 1,
        government: Some(30),
        opposition: Some(31),
        adjudicators: vec![7, 6, 4],
        non_aligned_speakers: vec![Some(20), None, Some(21)],
        president: None,
    };
    let flat = flatten_for_target(&ballot, &result, 9);
    assert_eq!(severities(&flat.government), vec![10, 12]);
    assert!(flat.opposition.is_empty());
    assert_eq!(flat.non_aligned_speakers.len(), 2);
    assert_eq!(severities(&flat.non_aligned_speakers[0]), vec![1]);
    assert!(flat.non_aligned_speakers[1].is_empty());
    assert_eq!(flat.adjudicators.len(), 3);
    assert_eq!(severities(&flat.adjudicators[0]), vec![3]);
    assert!(flat.adjudicators[1].is_empty());
    assert!(flat.adjudicators[2].is_empty());
    match &flat.adjudicators[0][0].target {
        DrawIssueTarget::Team { uuid, involved_speakers } => assert_eq!((*uuid, involved_speakers.clone()), (9, vec![1])),
        _ => panic!("the target changed"),
    }
}
