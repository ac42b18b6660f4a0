use vstd::prelude::*;

use std::collections::HashMap;

use crate::datastructures::{present_speakers, DrawBallot};
use crate::evaluation::{issue_lists_view, BallotEvaluationResult};
use crate::issues::{issues_view, target_uuid, DrawIssue, IssueView};

verus! {

broadcast use vstd::std_specs::hash::group_hash_axioms;

/// The issues of a draw ballot that concern one participant or team, by who
/// has them: each team, each present non-aligned speaker in slot order, and
/// each adjudicator in panel order.
pub struct FlatBallotEvaluationResult {
    pub government: Vec<DrawIssue>,
    pub opposition: Vec<DrawIssue>,
    pub non_aligned_speakers: Vec<Vec<DrawIssue>>,
    pub adjudicators: Vec<Vec<DrawIssue>>,
}

/// The issues whose target is the given participant or team, in order.
pub open spec fn issues_about(issues: Seq<IssueView>, target: u128) -> Seq<IssueView>
    decreases issues.len(),
{
    if issues.len() == 0 {
        Seq::empty()
    } else {
        let rest = issues_about(issues.drop_last(), target);
        if target_uuid(issues.last().target) == target {
            rest.push(issues.last())
        } else {
            rest
        }
    }
}

/// The issues listed for the holder, none where it has no list.
pub open spec fn listed_issues(m: Map<u128, Seq<IssueView>>, holder: u128) -> Seq<IssueView> {
    if m.contains_key(holder) {
        m[holder]
    } else {
        Seq::empty()
    }
}

/// The issues of the list that concern the target, copied.
fn copy_issues_about(issues: &Vec<DrawIssue>, target: u128) -> (r: Vec<DrawIssue>)
    ensures
        issues_view(r@) == issues_about(issues_view(issues@), target),
{
    let mut r: Vec<DrawIssue> = Vec::new();
    let mut i: usize = 0;
    while i < issues.len()
        invariant
            i <= issues.len(),
            issues_view(r@) == issues_about(issues_view(issues@.take(i as int)), target),
        decreases issues.len() - i,
    {
        let ghost prev = r@;
        assert(issues_view(issues@.take(i + 1)).drop_last() =~= issues_view(issues@.take(i as int)));
        assert(issues_view(issues@.take(i + 1)).last() == issues@[i as int]@);
        if issues[i].target.uuid() == target {
            r.push(issues[i].duplicate());
            assert(issues_view(r@) =~= issues_view(prev).push(issues@[i as int]@));
        }
        i += 1;
    }
    assert(issues@.take(issues.len() as int) =~= issues@);
    r
}

/// The issues listed for the holder that concern the target, copied.
fn listed_issues_about(m: &HashMap<u128, Vec<DrawIssue>>, holder: u128, target: u128) -> (r: Vec<DrawIssue>)
    ensures
        issues_view(r@) == issues_about(listed_issues(issue_lists_view(m@), holder), target),
{
    match m.get(&holder) {
        Some(list) => copy_issues_about(list, target),
        None => {
            let r: Vec<DrawIssue> = Vec::new();
            assert(issues_view(r@) =~= Seq::<IssueView>::empty());
            r
        },
    }
}

/// The lists of issues as mathematical values.
pub open spec fn issue_lists(v: Seq<Vec<DrawIssue>>) -> Seq<Seq<IssueView>> {
    v.map_values(|l: Vec<DrawIssue>| issues_view(l@))
}

/// The issues of an evaluated draw ballot that concern the target: those of
/// each team; for each non-aligned speaker in a slot, in slot order, those
/// listed for the speaker; for each adjudicator, in panel order, those listed
/// for the adjudicator.
pub fn flatten_for_target(ballot: &DrawBallot, result: &BallotEvaluationResult, target: u128) -> (r: FlatBallotEvaluationResult)
    ensures
        issues_view(r.government@) == issues_about(result.view().government, target),
        issues_view(r.opposition@) == issues_about(result.view().opposition, target),
        issue_lists(r.non_aligned_speakers@) == present_speakers(ballot.non_aligned_speakers@).map_values(
            |s: u128| issues_about(listed_issues(result.view().non_aligned, s), target),
        ),
        issue_lists(r.adjudicators@) == ballot.adjudicators@.map_values(
            |a: u128| issues_about(listed_issues(result.view().adjudicators, a), target),
        ),
{
    let government = copy_issues_about(&result.government_issues, target);
    let opposition = copy_issues_about(&result.opposition_issues, target);
    let ghost na = result.view().non_aligned;
    let mut non_aligned_speakers: Vec<Vec<DrawIssue>> = Vec::new();
    let mut i: usize = 0;
    while i < ballot.non_aligned_speakers.len()
        invariant
            i <= ballot.non_aligned_speakers.len(),
            na == issue_lists_view(result.non_aligned_issues@),
            issue_lists(non_aligned_speakers@) == present_speakers(ballot.non_aligned_speakers@.take(i as int)).map_values(
                |s: u128| issues_about(listed_issues(na, s), target),
            ),
        decreases ballot.non_aligned_speakers.len() - i,
    {
        assert(ballot.non_aligned_speakers@.take(i + 1).drop_last() =~= ballot.non_aligned_speakers@.take(i as int));
        let ghost prev = non_aligned_speakers@;
        match ballot.non_aligned_speakers[i] {
            Some(s) => {
                let l = listed_issues_about(&result.non_aligned_issues, s, target);
                non_aligned_speakers.push(l);
                assert(issue_lists(non_aligned_speakers@) =~= issue_lists(prev).push(issues_view(l@)));
            },
            None => {},
        }
        i += 1;
        assert(issue_lists(non_aligned_speakers@) =~= present_speakers(ballot.non_aligned_speakers@.take(i as int)).map_values(
            |s: u128| issues_about(listed_issues(na, s), target),
        ));
    }
    assert(ballot.non_aligned_speakers@.take(ballot.non_aligned_speakers.len() as int) =~= ballot.non_aligned_speakers@);
    let mut adjudicators: Vec<Vec<DrawIssue>> = Vec::new();
    let mut k: usize = 0;
    while k < ballot.adjudicators.len()
        invariant
            k <= ballot.adjudicators.len(),
            issue_lists(adjudicators@) == ballot.adjudicators@.take(k as int).map_values(
                |a: u128| issues_about(listed_issues(issue_lists_view(result.adjudicator_issues@), a), target),
            ),
        decreases ballot.adjudicators.len() - k,
    {
        let ghost prev = adjudicators@;
        let l = listed_issues_about(&result.adjudicator_issues, ballot.adjudicators[k], target);
        adjudicators.push(l);
        k += 1;
        assert(issue_lists(adjudicators@) =~= issue_lists(prev).push(issues_view(l@)));
        assert(issue_lists(adjudicators@) =~= ballot.adjudicators@.take(k as int).map_values(
            |a: u128| issues_about(listed_issues(issue_lists_view(result.adjudicator_issues@), a), target),
        ));
    }
    assert(ballot.adjudicators@.take(ballot.adjudicators.len() as int) =~= ballot.adjudicators@);
    FlatBallotEvaluationResult { government, opposition, non_aligned_speakers, adjudicators }
}

} // verus!
