use open_tab::eligibility::{
    get_eligiblity_info, AdjudicatorEligibilityMode, EligibilityConfig, NonAlignedEligibilityMode,
    TeamEligibilityMode, TournamentEligibleBreakCategory,
};
use open_tab::participants::{Participant, ParticipantRole};

fn mock_categories(configs: Vec<(u128, EligibilityConfig)>) -> Vec<TournamentEligibleBreakCategory> {
    configs
        .into_iter()
        .map(|(category_id, config)| TournamentEligibleBreakCategory { category_id, config })
        .collect()
}

fn category_or_none(category: u128) -> Option<u128> {
    if category != 0 {
        Some(category)
    } else {
        None
    }
}

fn mock_speaker_with_category(uuid: u128, category: u128, team_id: u128) -> Participant {
    Participant {
        uuid,
        role: ParticipantRole::Speaker { team_id: Some(team_id) },
        break_category_id: category_or_none(category),
        institutions: vec![],
    }
}

fn mock_adjudicator_with_category(uuid: u128, category: u128) -> Participant {
    Participant {
        uuid,
        role: ParticipantRole::Adjudicator,
        break_category_id: category_or_none(category),
        institutions: vec![],
    }
}

fn mock_teams(teams: Vec<(u128, Vec<(u128, u128)>)>) -> Vec<Participant> {
    teams
        .into_iter()
        .flat_map(|(team_id, members)| {
            members
                .into_iter()
                .map(move |(member_id, category_id)| mock_speaker_with_category(member_id, category_id, team_id))
        })
        .collect()
}

fn mock_adjudicators(adjudicators: Vec<(u128, u128)>) -> Vec<Participant> {
    adjudicators
        .into_iter()
        .map(|(adjudicator_id, category_id)| mock_adjudicator_with_category(adjudicator_id, category_id))
        .collect()
}

fn config(
    team: TeamEligibilityMode,
    non_aligned: NonAlignedEligibilityMode,
    adjudicator: AdjudicatorEligibilityMode,
) -> EligibilityConfig {
    EligibilityConfig {
        team_eligibility_mode: team,
        non_aligned_eligibility_mode: non_aligned,
        adjudicator_eligibility_mode: adjudicator,
    }
}

fn standard_teams() -> Vec<Participant> {
    mock_teams(vec![
        (1, vec![(100, 1), (101, 1), (102, 1)]),
        (2, vec![(103, 0), (104, 0), (105, 0)]),
        (3, vec![(106, 1), (107, 2), (108, 3)]),
    ])
}

#[test]
fn test_break_with_no_eligibility_includes_all_teams() {
    let participants = mock_teams(vec![
        (1, vec![(100, 0), (101, 0), (102, 0)]),
        (2, vec![(103, 1), (104, 2), (105, 1)]),
        (3, vec![(106, 1), (107, 2), (108, 3)]),
    ]);

    let info = get_eligiblity_info(&vec![], &participants);

    assert_eq!(info.eligible_teams.len(), 3);
    assert_eq!(info.eligible_speakers.len(), 9);
    assert_eq!(info.eligible_adjudicators.len(), 0);
}

#[test]
fn test_all_eligible_only_includes_fully_eligible_teams() {
    let participants = standard_teams();

    let info = get_eligiblity_info(
        &mock_categories(vec![(
            1,
            config(
                TeamEligibilityMode::AllEligible,
                NonAlignedEligibilityMode::DoNotRestrict,
                AdjudicatorEligibilityMode::DoNotRestrict,
            ),
        )]),
        &participants,
    );

    assert_eq!(info.eligible_teams.len(), 1);
    assert_eq!(info.eligible_teams.iter().next().unwrap(), &1u128);
}

#[test]
fn test_majority_eligible_includes_full_and_majority_teams() {
    let participants = mock_teams(vec![
        (1, vec![(100, 1), (101, 1), (102, 1)]),
        (2, vec![(103, 1), (104, 2), (105, 1)]),
        (3, vec![(106, 1), (107, 2), (108, 3)]),
    ]);

    let info = get_eligiblity_info(
        &mock_categories(vec![(
            1,
            config(
                TeamEligibilityMode::MajorityEligible,
                NonAlignedEligibilityMode::DoNotRestrict,
                AdjudicatorEligibilityMode::DoNotRestrict,
            ),
        )]),
        &participants,
    );

    assert_eq!(info.eligible_teams.len(), 2);
    assert_eq!(info.eligible_teams.contains(&1u128), true);
    assert_eq!(info.eligible_teams.contains(&2u128), true);
}

#[test]
fn test_any_eligible_includes_any_teams() {
    let participants = standard_teams();

    let info = get_eligiblity_info(
        &mock_categories(vec![(
            1,
            config(
                TeamEligibilityMode::AnyEligible,
                NonAlignedEligibilityMode::DoNotRestrict,
                AdjudicatorEligibilityMode::DoNotRestrict,
            ),
        )]),
        &participants,
    );

    assert_eq!(info.eligible_teams.len(), 2);
}

#[test]
fn test_all_non_aligned_includes_all_non_aligned() {
    let participants = standard_teams();

    let info = get_eligiblity_info(
        &mock_categories(vec![(
            1,
            config(
                TeamEligibilityMode::AllEligible,
                NonAlignedEligibilityMode::DoNotRestrict,
                AdjudicatorEligibilityMode::DoNotRestrict,
            ),
        )]),
        &participants,
    );

    assert_eq!(info.eligible_speakers.len(), 9);
}

#[test]
fn test_all_eligible_non_aligned() {
    let participants = standard_teams();

    let info = get_eligiblity_info(
        &mock_categories(vec![(
            1,
            config(
                TeamEligibilityMode::AllEligible,
                NonAlignedEligibilityMode::AllEligible,
                AdjudicatorEligibilityMode::DoNotRestrict,
            ),
        )]),
        &participants,
    );

    assert_eq!(info.eligible_speakers.len(), 4);
}

#[test]
fn test_all_eligible_in_eligible_team() {
    let participants = standard_teams();

    let info = get_eligiblity_info(
        &mock_categories(vec![(
            1,
            config(
                TeamEligibilityMode::AnyEligible,
                NonAlignedEligibilityMode::AllEligibleInEligibleTeams,
                AdjudicatorEligibilityMode::DoNotRestrict,
            ),
        )]),
        &participants,
    );

    assert_eq!(info.eligible_speakers.len(), 4);
}

#[test]
fn test_all_speakers_eligibile() {
    let participants = standard_teams();

    let info = get_eligiblity_info(
        &mock_categories(vec![(
            1,
            config(
                TeamEligibilityMode::AllEligible,
                NonAlignedEligibilityMode::DoNotRestrict,
                AdjudicatorEligibilityMode::DoNotRestrict,
            ),
        )]),
        &participants,
    );

    assert_eq!(info.eligible_speakers.len(), 9);
}

#[test]
fn test_all_in_eligible_team() {
    let participants = mock_teams(vec![
        (1, vec![(100, 1), (101, 1), (102, 0)]),
        (2, vec![(103, 0), (104, 0), (105, 0)]),
        (3, vec![(106, 1), (107, 2), (108, 0)]),
    ]);

    let info = get_eligiblity_info(
        &mock_categories(vec![(
            1,
            config(
                TeamEligibilityMode::AnyEligible,
                NonAlignedEligibilityMode::AllInEligibleTeams,
                AdjudicatorEligibilityMode::DoNotRestrict,
            ),
        )]),
        &participants,
    );

    assert_eq!(info.eligible_speakers.len(), 6);
}

#[test]
fn test_multiple_categories_make_union() {
    let participants = standard_teams();

    let info = get_eligiblity_info(
        &mock_categories(vec![
            (
                1,
                config(
                    TeamEligibilityMode::AllEligible,
                    NonAlignedEligibilityMode::DoNotRestrict,
                    AdjudicatorEligibilityMode::DoNotRestrict,
                ),
            ),
            (
                2,
                config(
                    TeamEligibilityMode::AnyEligible,
                    NonAlignedEligibilityMode::DoNotRestrict,
                    AdjudicatorEligibilityMode::DoNotRestrict,
                ),
            ),
        ]),
        &participants,
    );

    assert_eq!(info.eligible_teams.len(), 2);
}

#[test]
fn test_break_all_adjudicators() {
    let participants = mock_adjudicators(vec![(1, 1), (2, 1), (3, 2), (4, 3)]);

    let info = get_eligiblity_info(
        &mock_categories(vec![(
            1,
            config(
                TeamEligibilityMode::AllEligible,
                NonAlignedEligibilityMode::DoNotRestrict,
                AdjudicatorEligibilityMode::DoNotRestrict,
            ),
        )]),
        &participants,
    );

    assert_eq!(info.eligible_adjudicators.len(), 4);
}

#[test]
fn test_break_only_category_adjudicators() {
    let participants = mock_adjudicators(vec![(1, 1), (2, 1), (3, 2), (4, 3)]);

    let info = get_eligiblity_info(
        &mock_categories(vec![(
            1,
            config(
                TeamEligibilityMode::AllEligible,
                NonAlignedEligibilityMode::DoNotRestrict,
                AdjudicatorEligibilityMode::AllEligible,
            ),
        )]),
        &participants,
    );

    assert_eq!(info.eligible_adjudicators.len(), 2);
}

#[test]
fn test_break_only_category_adjudicators_with_do_not_restrict() {
    let participants = mock_adjudicators(vec![(1, 1), (2, 1), (3, 2), (4, 3)]);

    let info = get_eligiblity_info(
        &mock_categories(vec![
            (
                1,
                config(
                    TeamEligibilityMode::AllEligible,
                    NonAlignedEligibilityMode::DoNotRestrict,
                    AdjudicatorEligibilityMode::AllEligible,
                ),
            ),
            (
                2,
                config(
                    TeamEligibilityMode::AllEligible,
                    NonAlignedEligibilityMode::DoNotRestrict,
                    AdjudicatorEligibilityMode::DoNotRestrict,
                ),
            ),
        ]),
        &participants,
    );

    assert_eq!(info.eligible_adjudicators.len(), 2);
}

#[test]
fn eligibility_majority_of_even_team_is_half() {
    let participants = mock_teams(vec![(1, vec![(100, 1), (101, 0)]), (2, vec![(102, 0), (103, 0)])]);
    let info = get_eligiblity_info(
        &mock_categories(vec![(
            1,
            config(
                TeamEligibilityMode::MajorityEligible,
                NonAlignedEligibilityMode::DoNotRestrict,
                AdjudicatorEligibilityMode::DoNotRestrict,
            ),
        )]),
        &participants,
    );
    assert_eq!(info.eligible_teams.len(), 1);
    assert!(info.eligible_teams.contains(&1u128));
}

#[test]
fn joined_category_lists_admit_the_union_of_their_teams() {
    let participants = standard_teams();
    let any = |id: u128| {
        (
            id,
            config(
                TeamEligibilityMode::AnyEligible,
                NonAlignedEligibilityMode::DoNotRestrict,
                AdjudicatorEligibilityMode::DoNotRestrict,
            ),
        )
    };
    let a = mock_categories(vec![any(2)]);
    let b = mock_categories(vec![any(3)]);
    let joined = mock_categories(vec![any(2), any(3)]);
    let from_a = get_eligiblity_info(&a, &participants).eligible_teams;
    let from_b = get_eligiblity_info(&b, &participants).eligible_teams;
    let from_joined = get_eligiblity_info(&joined, &participants).eligible_teams;
    let union: std::collections::HashSet<u128> = from_a.union(&from_b).cloned().collect();
    assert_eq!(from_joined, union);
    assert_eq!(from_joined.len(), 1);
    assert!(from_joined.contains(&3));
}
