use std::collections::{HashMap, HashSet};

use open_tab::clashes::{DrawEvaluationContext, ParticipantsDebateHistory};
use open_tab::datastructures::DrawBallot;
use open_tab::participants::{Participant, ParticipantRole};
use open_tab::preliminary::{
    DrawTeamInfo, PreliminariesDrawMode, PreliminaryDrawError, PreliminaryRoundGenerator, RoundGenerationContext,
};

#[derive(Debug, Clone, PartialEq, Eq, Hash)]
enum TeamPositionStatisticEntry {
    Government,
    Opposition,
    NonAligned { rooms: Vec<usize> },
    Unset,
}

fn compute_team_position_history(
    round_ballots: &Vec<Vec<DrawBallot>>,
    teams: &Vec<DrawTeamInfo>,
) -> HashMap<u128, Vec<TeamPositionStatisticEntry>> {
    let mut team_stats: HashMap<u128, Vec<TeamPositionStatisticEntry>> = HashMap::new();

    let member_team_id_map = teams
        .iter()
        .flat_map(|team| team.member_ids.iter().map(move |member_id| (*member_id, team.uuid)))
        .collect::<HashMap<_, _>>();

    let fresh = |n: usize| (0..n).map(|_| TeamPositionStatisticEntry::Unset).collect::<Vec<_>>();

    for (round_idx, this_round_ballots) in round_ballots.iter().enumerate() {
        for (ballot_idx, ballot) in this_round_ballots.iter().enumerate() {
            if let Some(government) = ballot.government {
                let gov_stats = team_stats.entry(government).or_insert_with(|| fresh(round_ballots.len()));
                assert!(gov_stats[round_idx] == TeamPositionStatisticEntry::Unset);
                gov_stats[round_idx] = TeamPositionStatisticEntry::Government;
            }
            if let Some(opposition) = ballot.opposition {
                let opp_stats = team_stats.entry(opposition).or_insert_with(|| fresh(round_ballots.len()));
                assert!(opp_stats[round_idx] == TeamPositionStatisticEntry::Unset);
                opp_stats[round_idx] = TeamPositionStatisticEntry::Opposition;
            }

            for non_aligned in ballot.non_aligned_speakers.iter().flatten() {
                let team_id = *member_team_id_map.get(non_aligned).unwrap();
                let non_aligned_stats = team_stats.entry(team_id).or_insert_with(|| fresh(round_ballots.len()));
                match &mut non_aligned_stats[round_idx] {
                    TeamPositionStatisticEntry::NonAligned { rooms } => rooms.push(ballot_idx),
                    TeamPositionStatisticEntry::Unset => {
                        non_aligned_stats[round_idx] = TeamPositionStatisticEntry::NonAligned { rooms: vec![ballot_idx] }
                    },
                    _ => panic!("Team has mixed role"),
                }
            }
        }
    }

    team_stats
}

fn speaker(uuid: u128, team: u128) -> Participant {
    Participant {
        uuid,
        role: ParticipantRole::Speaker { team_id: Some(team) },
        break_category_id: None,
        institutions: vec![],
    }
}

fn evaluation_context(teams: &Vec<DrawTeamInfo>) -> DrawEvaluationContext {
    let mut speaker_teams = HashMap::new();
    let mut team_members = HashMap::new();
    let mut participants_by_id = HashMap::new();
    for team in teams.iter() {
        let mut members: Vec<u128> = vec![];
        for m in team.member_ids.iter() {
            if !members.contains(m) {
                members.push(*m);
            }
            speaker_teams.insert(*m, team.uuid);
            participants_by_id.insert(*m, speaker(*m, team.uuid));
        }
        team_members.insert(team.uuid, members);
    }
    DrawEvaluationContext {
        speaker_teams,
        participants_by_id,
        participant_declared_clashes: HashMap::new(),
        team_members,
        history: ParticipantsDebateHistory::new(),
    }
}

fn twelve_teams() -> Vec<DrawTeamInfo> {
    (0..12u128)
        .map(|idx| {
            let base_id = 4000 + idx * 10;
            DrawTeamInfo { uuid: base_id, member_ids: vec![base_id + 1, base_id + 2, base_id + 2] }
        })
        .collect()
}

#[test]
fn test_generated_draw_has_correct_statistics() {
    let context = RoundGenerationContext { teams: twelve_teams(), adjudicators: vec![], speakers: vec![] };

    let generator = PreliminaryRoundGenerator { ..Default::default() };

    let rounds = vec![10u128, 11, 12];
    let mut evaluation = evaluation_context(&context.teams);

    let generated_ballots = match generator.generate_draw_for_rounds(&context, &rounds, &vec![], &mut evaluation) {
        Ok(b) => b,
        Err(_) => panic!("the draw can be made"),
    };
    let stats = compute_team_position_history(&generated_ballots, &context.teams);

    assert_eq!(stats.len(), 12, "All teams should have a statistics entry");

    for team_stats in stats.values() {
        let positions = team_stats.iter().map(|e| std::mem::discriminant(e)).collect::<Vec<_>>();

        assert!(
            !positions.contains(&std::mem::discriminant(&TeamPositionStatisticEntry::Unset)),
            "Team must always be set"
        );
        assert_eq!(positions.iter().collect::<HashSet<_>>().len(), 3, "Team must see all three roles");
    }
}

#[test]
fn preliminary_draw_counts_are_checked() {
    let generator = PreliminaryRoundGenerator { draw_mode: PreliminariesDrawMode::AvoidClashes };
    let context = RoundGenerationContext { teams: twelve_teams(), adjudicators: vec![], speakers: vec![] };
    let mut evaluation = evaluation_context(&context.teams);
    match generator.generate_draw_for_rounds(&context, &vec![1, 2], &vec![], &mut evaluation) {
        Err(PreliminaryDrawError::IncorrectRoundCount(2)) => {},
        _ => panic!("two rounds cannot be drawn"),
    }
    let few = RoundGenerationContext { teams: twelve_teams().into_iter().take(4).collect(), adjudicators: vec![], speakers: vec![] };
    match generator.generate_draw_for_rounds(&few, &vec![1, 2, 3], &vec![], &mut evaluation) {
        Err(PreliminaryDrawError::IncorrectTeamCount(4)) => {},
        _ => panic!("four teams cannot be drawn"),
    }
}

#[test]
fn preliminary_draw_is_the_same_for_the_same_teams() {
    let generator = PreliminaryRoundGenerator::default();
    let context = RoundGenerationContext { teams: twelve_teams(), adjudicators: vec![], speakers: vec![] };
    let mut first = evaluation_context(&context.teams);
    let mut second = evaluation_context(&context.teams);
    let a = match generator.generate_draw_for_rounds(&context, &vec![1, 2, 3], &vec![], &mut first) {
        Ok(v) => v,
        Err(_) => panic!("the draw can be made"),
    };
    let b = match generator.generate_draw_for_rounds(&context, &vec![1, 2, 3], &vec![], &mut second) {
        Ok(v) => v,
        Err(_) => panic!("the draw can be made"),
    };
    for (ra, rb) in a.iter().zip(b.iter()) {
        let mut ga: Vec<u128> = ra.iter().map(|x| x.government.unwrap()).collect();
        let mut gb: Vec<u128> = rb.iter().map(|x| x.government.unwrap()).collect();
        ga.sort();
        gb.sort();
        assert_eq!(ga, gb, "the buckets come from a fixed seed");
    }
}
