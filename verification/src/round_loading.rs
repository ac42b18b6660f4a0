use vstd::prelude::*;

use crate::datastructures::{
    AdjudicatorInfo, Ballot, DrawBallot, RoundInfo, RoundView, ballot_debate, draw_ballot_debate, rounds_view,
};
use crate::evaluation::DrawEvaluator;
use crate::flow_optimization::{
    OptimizationOptions, OptimizationState, adjudicators_known, adjudicators_valid, initial_position,
};

verus! {

/// A round by its id and whether it is silent, with its recorded ballots.
pub struct BallotRound {
    pub id: u128,
    pub is_silent: bool,
    pub ballots: Vec<Ballot>,
}

/// A round by its id and whether it is silent, with its draw ballots.
pub struct DrawBallotRound {
    pub id: u128,
    pub is_silent: bool,
    pub ballots: Vec<DrawBallot>,
}

/// The rounds with the debates recorded in their ballots.
pub open spec fn ballot_rounds_view(rounds: Seq<BallotRound>) -> Seq<RoundView> {
    rounds.map_values(
        |r: BallotRound| RoundView { id: r.id, is_silent: r.is_silent, debates: r.ballots@.map_values(|b: Ballot| ballot_debate(b)) },
    )
}

/// The rounds with the debates of their draw ballots.
pub open spec fn draw_ballot_rounds_view(rounds: Seq<DrawBallotRound>) -> Seq<RoundView> {
    rounds.map_values(
        |r: DrawBallotRound| RoundView {
            id: r.id,
            is_silent: r.is_silent,
            debates: r.ballots@.map_values(|b: DrawBallot| draw_ballot_debate(b)),
        },
    )
}

fn rounds_from_ballots(rounds: &Vec<BallotRound>) -> (r: Vec<RoundInfo>)
    ensures
        rounds_view(r@) == ballot_rounds_view(rounds@),
{
    let mut out: Vec<RoundInfo> = Vec::new();
    let mut i: usize = 0;
    while i < rounds.len()
        invariant
            i <= rounds.len(),
            out@.len() == i,
            rounds_view(out@) == ballot_rounds_view(rounds@.take(i as int)),
        decreases rounds.len() - i,
    {
        let round = &rounds[i];
        let info = RoundInfo::from_ballots(round.id, round.is_silent, &round.ballots);
        let ghost prev = out@;
        out.push(info);
        i += 1;
        proof {
            let target = ballot_rounds_view(rounds@.take(i as int));
            assert forall|k: int| 0 <= k < i implies rounds_view(out@)[k] == target[k] by {
                if k < i - 1 {
                    assert(out@[k] == prev[k]);
                    assert(rounds_view(prev)[k] == ballot_rounds_view(rounds@.take(i - 1))[k]);
                }
            }
            assert(rounds_view(out@) =~= target);
        }
    }
    assert(rounds@.take(rounds.len() as int) =~= rounds@);
    out
}

fn rounds_from_draw_ballots(rounds: &Vec<DrawBallotRound>) -> (r: Vec<RoundInfo>)
    ensures
        rounds_view(r@) == draw_ballot_rounds_view(rounds@),
{
    let mut out: Vec<RoundInfo> = Vec::new();
    let mut i: usize = 0;
    while i < rounds.len()
        invariant
            i <= rounds.len(),
            out@.len() == i,
            rounds_view(out@) == draw_ballot_rounds_view(rounds@.take(i as int)),
        decreases rounds.len() - i,
    {
        let round = &rounds[i];
        let info = RoundInfo::from_draw_ballots(round.id, round.is_silent, &round.ballots);
        let ghost prev = out@;
        out.push(info);
        i += 1;
        proof {
            let target = draw_ballot_rounds_view(rounds@.take(i as int));
            assert forall|k: int| 0 <= k < i implies rounds_view(out@)[k] == target[k] by {
                if k < i - 1 {
                    assert(out@[k] == prev[k]);
                    assert(rounds_view(prev)[k] == draw_ballot_rounds_view(rounds@.take(i - 1))[k]);
                }
            }
            assert(rounds_view(out@) =~= target);
        }
    }
    assert(rounds@.take(rounds.len() as int) =~= rounds@);
    out
}

impl<'a> OptimizationState<'a> {
    /// The allocation over rounds given by their recorded ballots: each
    /// adjudicator sits where the ballots last place it in each round,
    /// unassigned where they do not, and is unavailable in the last round of
    /// each id it lists as unavailable.
    pub fn load_from_rounds_and_ballots(
        round_draw: &Vec<BallotRound>,
        adjudicators: Vec<AdjudicatorInfo>,
        unavailable_rounds: Vec<Vec<u128>>,
        options: OptimizationOptions,
        evaluator: &'a DrawEvaluator<'a>,
    ) -> (s: Self)
        requires
            adjudicators_valid(adjudicators@),
            adjudicators_known(ballot_rounds_view(round_draw@), adjudicators@),
            unavailable_rounds.len() == adjudicators.len(),
        ensures
            s.wf(),
            s.allocation().rounds == ballot_rounds_view(round_draw@),
            s.adjudicators@ == adjudicators@,
            s.options == options,
            s.evaluator == evaluator,
            forall|a: int, r: int|
                0 <= a < adjudicators.len() && 0 <= r < round_draw.len() ==> #[trigger] s.allocation().assignments[a][r]
                    == initial_position(ballot_rounds_view(round_draw@), adjudicators@[a].id, unavailable_rounds@[a]@, r),
    {
        let rounds = rounds_from_ballots(round_draw);
        OptimizationState::load_from_rounds(rounds, adjudicators, unavailable_rounds, options, evaluator)
    }

    /// The allocation over rounds given by their draw ballots: each
    /// adjudicator sits where the draw ballots last place it in each round,
    /// unassigned where they do not, and is unavailable in the last round of
    /// each id it lists as unavailable.
    pub fn load_from_rounds_and_draw_ballots(
        round_draw: &Vec<DrawBallotRound>,
        adjudicators: Vec<AdjudicatorInfo>,
        unavailable_rounds: Vec<Vec<u128>>,
        options: OptimizationOptions,
        evaluator: &'a DrawEvaluator<'a>,
    ) -> (s: Self)
        requires
            adjudicators_valid(adjudicators@),
            adjudicators_known(draw_ballot_rounds_view(round_draw@), adjudicators@),
            unavailable_rounds.len() == adjudicators.len(),
        ensures
            s.wf(),
            s.allocation().rounds == draw_ballot_rounds_view(round_draw@),
            s.adjudicators@ == adjudicators@,
            s.options == options,
            s.evaluator == evaluator,
            forall|a: int, r: int|
                0 <= a < adjudicators.len() && 0 <= r < round_draw.len() ==> #[trigger] s.allocation().assignments[a][r]
                    == initial_position(draw_ballot_rounds_view(round_draw@), adjudicators@[a].id, unavailable_rounds@[a]@, r),
    {
        let rounds = rounds_from_draw_ballots(round_draw);
        OptimizationState::load_from_rounds(rounds, adjudicators, unavailable_rounds, options, evaluator)
    }
}

} // verus!
